//! What the decompiler's server offers, and how it pings itself.

use vstd::prelude::*;

use crate::text::{decimal, to_decimal};

verus! {

/// How a resource is asked for.
#[derive(Clone, Copy, Debug, PartialEq, Eq, Structural)]
pub enum Method {
    Get,
    Post,
}

/// What answers a request.
#[derive(Clone, Copy, Debug, PartialEq, Eq, Structural)]
pub enum Handler {
    Health,
    Ping,
    DecompileLuau,
    DecompileLua51,
}

impl Handler {
    /// Where the handler is found.
    pub open spec fn place(self) -> Seq<char> {
        match self {
            Handler::Health => "/health"@,
            Handler::Ping => "/ping"@,
            Handler::DecompileLuau => "/luau/decompile"@,
            Handler::DecompileLua51 => "/lua51/decompile"@,
        }
    }

    /// How the handler is asked.
    pub open spec fn asked_by(self) -> Method {
        match self {
            Handler::Health | Handler::Ping => Method::Get,
            Handler::DecompileLuau | Handler::DecompileLua51 => Method::Post,
        }
    }

    pub fn path(&self) -> (path: &'static str)
        ensures
            path@ == self.place(),
    {
        match self {
            Handler::Health => "/health",
            Handler::Ping => "/ping",
            Handler::DecompileLuau => "/luau/decompile",
            Handler::DecompileLua51 => "/lua51/decompile",
        }
    }

    pub fn method(&self) -> (method: Method)
        ensures
            method == self.asked_by(),
    {
        match self {
            Handler::Health | Handler::Ping => Method::Get,
            Handler::DecompileLuau | Handler::DecompileLua51 => Method::Post,
        }
    }
}

/// The handlers that are offered: the two that tell that the server is there, and
/// a decompiler for each language that is switched on.
pub open spec fn offered(luau: bool, lua51: bool) -> Seq<Handler> {
    seq![Handler::Health, Handler::Ping] + (if luau {
        seq![Handler::DecompileLuau]
    } else {
        seq![]
    }) + (if lua51 {
        seq![Handler::DecompileLua51]
    } else {
        seq![]
    })
}

/// The handlers that the server offers.
pub fn handlers(luau: bool, lua51: bool) -> (list: Vec<Handler>)
    ensures
        list@ == offered(luau, lua51),
{
    let mut list: Vec<Handler> = vec![Handler::Health, Handler::Ping];
    if luau {
        list.push(Handler::DecompileLuau);
    }
    if lua51 {
        list.push(Handler::DecompileLua51);
    }
    assert(list@ =~= offered(luau, lua51));
    list
}

/// The address that the server listens on.
pub fn listen_address(port: u16) -> (address: String)
    ensures
        address@ == "0.0.0.0:"@ + decimal(port as nat),
{
    let mut address = String::from_str("0.0.0.0:");
    address.append(to_decimal(port as u32).as_str());
    address
}

/// The address that the server reaches itself at.
pub fn ping_address(port: u16) -> (address: String)
    ensures
        address@ == "127.0.0.1:"@ + decimal(port as nat),
{
    let mut address = String::from_str("127.0.0.1:");
    address.append(to_decimal(port as u32).as_str());
    address
}

/// The request that the server sends itself.
pub fn health_request(port: u16) -> (request: String)
    ensures
        request@ == "GET /health HTTP/1.1\r\nHost: localhost:"@ + decimal(port as nat)
            + "\r\nConnection: close\r\n\r\n"@,
{
    let mut request = String::from_str("GET /health HTTP/1.1\r\nHost: localhost:");
    request.append(to_decimal(port as u32).as_str());
    request.append("\r\nConnection: close\r\n\r\n");
    request
}

/// The answer to a question for the server's health.
pub struct HealthResponse {
    pub status: &'static str,
    pub timestamp: String,
}

/// The answer to a question for the server's health, at a time.
pub fn health(timestamp: String) -> (response: HealthResponse)
    ensures
        response.status@ == "OK"@,
        response.timestamp@ == timestamp@,
{
    HealthResponse { status: "OK", timestamp }
}

/// The answer to a ping.
pub fn ping() -> (answer: &'static str)
    ensures
        answer@ == "pong"@,
{
    "pong"
}

/// The key that Luau bytecode is read with where none is given.
pub fn default_encode_key() -> (key: u8)
    ensures
        key == 203,
{
    203
}

/// How bytecode is to be decompiled.
#[derive(Clone, Copy, Debug, PartialEq, Eq, Structural)]
pub struct Job {
    pub encode_key: u8,
    pub lua51: bool,
}

/// How Luau bytecode is decompiled, with the key that the request names, if any.
pub fn decompile_luau(encode_key: Option<u8>) -> (job: Job)
    ensures
        job.encode_key == match encode_key {
            Some(key) => key,
            None => 203,
        },
        !job.lua51,
{
    let encode_key = match encode_key {
        Some(key) => key,
        None => default_encode_key(),
    };
    Job { encode_key, lua51: false }
}

/// How Lua 5.1 bytecode is decompiled.
pub fn decompile_lua51() -> (job: Job)
    ensures
        job.encode_key == 203,
        job.lua51,
{
    Job { encode_key: default_encode_key(), lua51: true }
}

/// The seconds from one round of pings to the next.
pub const PING_PERIOD: u64 = 60;

/// What the server does next to ping itself.
#[derive(Clone, Copy, Debug, PartialEq, Eq, Structural)]
pub enum PingStep {
    /// Waits until the next round begins.
    Tick,
    /// Waits before an attempt.
    Sleep { attempt: u8, millis: u64 },
    /// Connects to itself.
    Connect { attempt: u8 },
    /// Sends the request.
    Send { attempt: u8 },
}

/// An attempt, after a wait that grows from one attempt to the next.
pub open spec fn attempt_at(attempt: u8) -> PingStep {
    PingStep::Sleep { attempt, millis: ((attempt - 1) * 200) as u64 }
}

/// What follows an attempt: there are three in every round.
pub open spec fn after_attempt(attempt: u8) -> PingStep {
    if attempt >= 3 {
        PingStep::Tick
    } else {
        attempt_at((attempt + 1) as u8)
    }
}

impl PingStep {
    /// What is done next.
    pub open spec fn then_step(self, succeeded: bool) -> PingStep {
        match self {
            PingStep::Tick => attempt_at(1),
            PingStep::Sleep { attempt, .. } => PingStep::Connect { attempt },
            PingStep::Connect { attempt } => if succeeded {
                PingStep::Send { attempt }
            } else {
                after_attempt(attempt)
            },
            PingStep::Send { attempt } => after_attempt(attempt),
        }
    }

    /// What is done in one attempt, and the step after it.
    pub open spec fn attempted(self, succeeded: bool) -> PingStep {
        let connected = self.then_step(true).then_step(succeeded);
        if succeeded {
            connected.then_step(true)
        } else {
            connected
        }
    }

    /// The first step of all.
    pub fn first() -> (step: PingStep)
        ensures
            step == PingStep::Tick,
    {
        PingStep::Tick
    }

    /// What is done next, by whether this step succeeded.  Only a connection that
    /// fails makes a difference.
    pub fn next(&self, succeeded: bool) -> (step: PingStep)
        ensures
            step == self.then_step(succeeded),
    {
        match *self {
            PingStep::Tick => PingStep::Sleep { attempt: 1, millis: 0 },
            PingStep::Sleep { attempt, .. } => PingStep::Connect { attempt },
            PingStep::Connect { attempt } => {
                if succeeded {
                    PingStep::Send { attempt }
                } else {
                    Self::next_attempt(attempt)
                }
            },
            PingStep::Send { attempt } => Self::next_attempt(attempt),
        }
    }

    fn next_attempt(attempt: u8) -> (step: PingStep)
        ensures
            step == after_attempt(attempt),
    {
        if attempt >= 3 {
            PingStep::Tick
        } else {
            PingStep::Sleep { attempt: attempt + 1, millis: attempt as u64 * 200 }
        }
    }
}

/// Whatever comes of them, three attempts follow every tick, after waits of
/// nothing, 200 and 400 milliseconds, and then the next tick.
pub proof fn three_attempts_a_round(first: bool, second: bool, third: bool)
    ensures
        PingStep::Tick.then_step(true) == (PingStep::Sleep { attempt: 1, millis: 0 }),
        PingStep::Tick.then_step(true).attempted(first) == (PingStep::Sleep {
            attempt: 2,
            millis: 200,
        }),
        PingStep::Tick.then_step(true).attempted(first).attempted(second) == (PingStep::Sleep {
            attempt: 3,
            millis: 400,
        }),
        PingStep::Tick.then_step(true).attempted(first).attempted(second).attempted(third)
            == PingStep::Tick,
{
}

/// The decompilers are offered where they are switched on, and nowhere else.
pub proof fn decompilers_are_switched_on(luau: bool, lua51: bool)
    ensures
        offered(luau, lua51).contains(Handler::DecompileLuau) <==> luau,
        offered(luau, lua51).contains(Handler::DecompileLua51) <==> lua51,
        offered(luau, lua51).contains(Handler::Health),
        offered(luau, lua51).contains(Handler::Ping),
        offered(luau, lua51).no_duplicates(),
{
    let list = offered(luau, lua51);
    assert(list[0] == Handler::Health);
    assert(list[1] == Handler::Ping);
    if luau {
        assert(list[2] == Handler::DecompileLuau);
    }
    if lua51 {
        assert(list.last() == Handler::DecompileLua51);
        assert(list[list.len() - 1] == Handler::DecompileLua51);
    }
}

/// Every handler has a place of its own, and the decompilers alone are sent something.
pub proof fn handlers_are_told_apart(a: Handler, b: Handler)
    ensures
        a.place() == b.place() ==> a == b,
        a.asked_by() == Method::Post <==> a == Handler::DecompileLuau || a
            == Handler::DecompileLua51,
        Handler::Health.place() == "/health"@,
        Handler::Ping.place() == "/ping"@,
        Handler::DecompileLuau.place() == "/luau/decompile"@,
        Handler::DecompileLua51.place() == "/lua51/decompile"@,
{
    reveal_strlit("/health");
    reveal_strlit("/ping");
    reveal_strlit("/luau/decompile");
    reveal_strlit("/lua51/decompile");
    assert("/health"@.len() == 7 && "/ping"@.len() == 5);
    assert("/luau/decompile"@.len() == 15 && "/lua51/decompile"@.len() == 16);
}

/// Nothing but the two that tell that the server is there and the decompilers that are
/// switched on is offered.
pub proof fn nothing_else_is_offered(luau: bool, lua51: bool)
    ensures
        offered(luau, lua51).len() == 2 + (if luau {
            1int
        } else {
            0
        }) + (if lua51 {
            1int
        } else {
            0
        }),
{
}

/// Every attempt connects, sends its request only over a connection, and is followed by
/// the next one, up to the third, each after 200 milliseconds more than the one before.
pub proof fn attempts_wait_longer_and_longer(attempt: u8, millis: u64, succeeded: bool)
    requires
        1 <= attempt <= 3,
    ensures
        (PingStep::Sleep { attempt, millis }).then_step(succeeded) == (PingStep::Connect {
            attempt,
        }),
        (PingStep::Connect { attempt }).then_step(true) == (PingStep::Send { attempt }),
        (PingStep::Connect { attempt }).then_step(false) == (PingStep::Send { attempt }).then_step(
            succeeded,
        ),
        attempt < 3 ==> (PingStep::Send { attempt }).then_step(succeeded) == (PingStep::Sleep {
            attempt: (attempt + 1) as u8,
            millis: (attempt * 200) as u64,
        }),
        attempt == 3 ==> (PingStep::Send { attempt }).then_step(succeeded) == PingStep::Tick,
        PingStep::Tick.then_step(succeeded) == (PingStep::Sleep { attempt: 1, millis: 0 }),
{
}

} // verus!
