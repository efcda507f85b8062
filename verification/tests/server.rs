use restructure::serve::{
    decompile_lua51, decompile_luau, default_encode_key, handlers, health, health_request,
    listen_address, ping, ping_address, Handler, Job, Method, PingStep, PING_PERIOD,
};

#[test]
fn the_default_key_is_fixed() {
    assert_eq!(default_encode_key(), 203);
}

#[test]
fn handlers_follow_the_switches() {
    assert_eq!(handlers(false, false), vec![Handler::Health, Handler::Ping]);
    assert_eq!(
        handlers(true, false),
        vec![Handler::Health, Handler::Ping, Handler::DecompileLuau]
    );
    assert_eq!(
        handlers(false, true),
        vec![Handler::Health, Handler::Ping, Handler::DecompileLua51]
    );
    assert_eq!(
        handlers(true, true),
        vec![Handler::Health, Handler::Ping, Handler::DecompileLuau, Handler::DecompileLua51]
    );
}

#[test]
fn handlers_have_their_places() {
    let found: Vec<(&str, Method)> =
        handlers(true, true).iter().map(|h| (h.path(), h.method())).collect();
    assert_eq!(
        found,
        vec![
            ("/health", Method::Get),
            ("/ping", Method::Get),
            ("/luau/decompile", Method::Post),
            ("/lua51/decompile", Method::Post),
        ]
    );
}

#[test]
fn addresses_name_the_port() {
    assert_eq!(listen_address(3000), "0.0.0.0:3000");
    assert_eq!(ping_address(65535), "127.0.0.1:65535");
    assert_eq!(
        health_request(80),
        "GET /health HTTP/1.1\r\nHost: localhost:80\r\nConnection: close\r\n\r\n"
    );
}

#[test]
fn answers_are_fixed() {
    assert_eq!(ping(), "pong");
    let response = health("2024-01-01T00:00:00+00:00".to_string());
    assert_eq!(response.status, "OK");
    assert_eq!(response.timestamp, "2024-01-01T00:00:00+00:00");
}

#[test]
fn jobs_take_the_key_of_the_request() {
    assert_eq!(decompile_luau(Some(1)), Job { encode_key: 1, lua51: false });
    assert_eq!(decompile_luau(None), Job { encode_key: 203, lua51: false });
    assert_eq!(decompile_lua51(), Job { encode_key: 203, lua51: true });
}

#[test]
fn three_attempts_follow_a_tick() {
    assert_eq!(PING_PERIOD, 60);
    for outcomes in 0..8u8 {
        let mut step = PingStep::first();
        assert_eq!(step, PingStep::Tick);
        step = step.next(true);
        for attempt in 1..=3u8 {
            let millis = (attempt as u64 - 1) * 200;
            assert_eq!(step, PingStep::Sleep { attempt, millis });
            step = step.next(true);
            assert_eq!(step, PingStep::Connect { attempt });
            let connected = outcomes & (1 << (attempt - 1)) != 0;
            step = step.next(connected);
            if connected {
                assert_eq!(step, PingStep::Send { attempt });
                step = step.next(false);
            }
        }
        assert_eq!(step, PingStep::Tick);
    }
}
