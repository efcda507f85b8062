//! Compiled chunks: a header and the main function behind it.

use nom::IResult;
use vstd::prelude::*;

verus! {

/// nom's outcome of a parser that does not succeed.
#[verifier::external_type_specification]
#[verifier::external_body]
#[verifier::reject_recursive_types(E)]
pub struct ExErr<E>(nom::Err<E>);

/// nom's description of where and why a parser gave up.
#[verifier::external_type_specification]
#[verifier::external_body]
#[verifier::reject_recursive_types(I)]
pub struct ExError<I>(nom::error::Error<I>);

/// A compiled chunk, of which the main function is kept.
#[derive(Debug)]
pub struct Chunk<F> {
    pub function: F,
}

/// What parsing a chunk gives: the parser of the header is run on the input, the
/// parser of the function on what the header leaves, and the first that does not
/// succeed decides.
pub open spec fn parses<'a, H, F, P, Q>(
    header: P,
    function: Q,
    input: &'a [u8],
    result: IResult<&'a [u8], Chunk<F>>,
) -> bool where
    P: FnOnce(&'a [u8]) -> IResult<&'a [u8], H>,
    Q: FnOnce(&'a [u8]) -> IResult<&'a [u8], F>,
 {
    exists|first: IResult<&'a [u8], H>| #[trigger]
        call_ensures(header, (input,), first) && match first {
            Err(error) => result is Err && result->Err_0 == error,
            Ok((rest, _)) => exists|second: IResult<&'a [u8], F>| #[trigger]
                call_ensures(function, (rest,), second) && result == with_chunk(second),
        }
}

/// The result with the function put into a chunk.
pub open spec fn with_chunk<'a, F>(second: IResult<&'a [u8], F>) -> IResult<&'a [u8], Chunk<F>> {
    match second {
        Ok((rest, function)) => Ok((rest, Chunk { function })),
        Err(error) => Err(error),
    }
}

impl<F> Chunk<F> {
    /// Parses a chunk with the parsers of its two parts.  The header itself is
    /// not kept.
    pub fn parse<'a, H, P, Q>(input: &'a [u8], header: P, function: Q) -> (result: IResult<
        &'a [u8],
        Self,
    >) where
        P: FnOnce(&'a [u8]) -> IResult<&'a [u8], H>,
        Q: FnOnce(&'a [u8]) -> IResult<&'a [u8], F>,

        requires
            call_requires(header, (input,)),
            forall|first: IResult<&'a [u8], H>| #[trigger]
                call_ensures(header, (input,), first) && first is Ok ==> call_requires(
                    function,
                    (first->Ok_0.0,),
                ),
        ensures
            parses(header, function, input, result),
    {
        let first = header(input);
        match first {
            Err(error) => Err(error),
            Ok((rest, _)) => {
                let second = function(rest);
                let result: IResult<&'a [u8], Self> = match second {
                    Err(error) => Err(error),
                    Ok((rest, function)) => Ok((rest, Chunk { function })),
                };
                result
            },
        }
    }
}

/// A chunk is parsed where its header is and then, in what the header leaves, its
/// function; the chunk is that function, and what the function leaves is left.  The
/// error of the first part that fails is the error of the whole.
pub proof fn the_function_follows_the_header<'a, H, F, P, Q>(
    header: P,
    function: Q,
    input: &'a [u8],
    result: IResult<&'a [u8], Chunk<F>>,
) where
    P: FnOnce(&'a [u8]) -> IResult<&'a [u8], H>,
    Q: FnOnce(&'a [u8]) -> IResult<&'a [u8], F>,

    requires
        parses::<H, F, P, Q>(header, function, input, result),
    ensures
        result is Ok ==> exists|first: IResult<&'a [u8], H>, second: IResult<&'a [u8], F>|
            #![trigger call_ensures(header, (input,), first), call_ensures(
                function, (first->Ok_0.0,), second)]
            call_ensures(header, (input,), first) && first is Ok && call_ensures(
                function,
                (first->Ok_0.0,),
                second,
            ) && second is Ok && result->Ok_0.0 == second->Ok_0.0 && result->Ok_0.1.function
                == second->Ok_0.1,
        result is Err ==> exists|first: IResult<&'a [u8], H>|
            #![trigger call_ensures(header, (input,), first)]
            call_ensures(header, (input,), first) && (first is Err && first->Err_0
                == result->Err_0 || first is Ok && exists|second: IResult<&'a [u8], F>|
                #![trigger call_ensures(function, (first->Ok_0.0,), second)]
                call_ensures(function, (first->Ok_0.0,), second) && second is Err
                    && second->Err_0 == result->Err_0),
{
    let first = choose|first: IResult<&'a [u8], H>| #[trigger]
        call_ensures(header, (input,), first) && match first {
            Err(error) => result is Err && result->Err_0 == error,
            Ok((rest, _)) => exists|second: IResult<&'a [u8], F>| #[trigger]
                call_ensures(function, (rest,), second) && result == with_chunk(second),
        };
    if first is Ok {
        let rest = first->Ok_0.0;
        let second = choose|second: IResult<&'a [u8], F>| #[trigger]
            call_ensures(function, (rest,), second) && result == with_chunk(second);
        assert(call_ensures(function, (first->Ok_0.0,), second));
    }
}

} // verus!
