use nom::bytes::complete::{tag, take};
use nom::error::{Error, ErrorKind};
use nom::IResult;
use restructure::chunk::Chunk;

fn header(input: &[u8]) -> IResult<&[u8], &[u8]> {
    tag(&b"\x1bLua"[..])(input)
}

fn function(input: &[u8]) -> IResult<&[u8], &[u8]> {
    take(2usize)(input)
}

#[test]
fn a_chunk_is_a_header_and_a_function() {
    let input = b"\x1bLuaabc";
    let (rest, chunk) = Chunk::parse(&input[..], header, function).unwrap();
    assert_eq!(rest, b"c");
    assert_eq!(chunk.function, b"ab");
}

#[test]
fn a_wrong_header_ends_the_parse() {
    let input = b"\x1bLubabc";
    let error = Chunk::parse(&input[..], header, function).unwrap_err();
    assert_eq!(error, nom::Err::Error(Error::new(&input[..], ErrorKind::Tag)));
}

#[test]
fn a_function_that_is_cut_off_ends_the_parse() {
    let input = b"\x1bLuaa";
    let error = Chunk::parse(&input[..], header, function).unwrap_err();
    assert_eq!(error, nom::Err::Error(Error::new(&input[4..], ErrorKind::Eof)));
}
