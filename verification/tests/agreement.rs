use process_bridge::framing::codec::{encode_frame, ProtocolError};
use process_bridge::framing::decoder::FrameDecoder;
use process_bridge::framing::header::content_length;
use process_bridge::health::has_error_word;

// The same things written with the text functions of std, to hold the
// byte-wise ones against.

fn content_length_by_std(header: &[u8]) -> usize {
    let text = String::from_utf8_lossy(header);
    let mut length: usize = 0;
    for line in text.split("\r\n") {
        if let Some(rest) = line.to_ascii_lowercase().strip_prefix("content-length:") {
            if let Ok(n) = rest.trim().parse::<usize>() {
                length = n;
            }
        }
    }
    length
}

fn has_error_word_by_std(text: &[u8]) -> bool {
    String::from_utf8_lossy(text).to_lowercase().contains("error")
}

fn decode_by_std(stream: &[u8]) -> Vec<Result<String, ProtocolError>> {
    let mut out = Vec::new();
    let mut at = 0;
    loop {
        let mut header = Vec::new();
        loop {
            if at == stream.len() {
                return out;
            }
            header.push(stream[at]);
            at += 1;
            if header.ends_with(b"\r\n\r\n") {
                break;
            }
        }
        let length = content_length_by_std(&header);
        if length == 0 {
            out.push(Err(ProtocolError::MissingLength));
            continue;
        }
        if stream.len() - at < length {
            return out;
        }
        let body = stream[at..at + length].to_vec();
        at += length;
        match String::from_utf8(body) {
            Ok(text) => out.push(Ok(text)),
            Err(_) => out.push(Err(ProtocolError::InvalidUtf8)),
        }
    }
}

struct Dice(u64);

impl Dice {
    fn roll(&mut self, sides: usize) -> usize {
        self.0 = self.0.wrapping_mul(6364136223846793005).wrapping_add(1442695040888963407);
        ((self.0 >> 33) as usize) % sides
    }
}

fn pieces() -> Vec<&'static [u8]> {
    vec![
        b"Content-Length:",
        b"content-length:",
        b"CONTENT-LENGTH:",
        b"Content-Length",
        b"Content-Type:",
        b"\r\n",
        b"\r\n\r\n",
        b"\r",
        b"\n",
        b" ",
        b"\t",
        b"\x0b",
        b"\x0c",
        b"\xc2\x85",
        b"\xc2\xa0",
        b"\xe1\x9a\x80",
        b"\xe2\x80\x80",
        b"\xe2\x80\x8a",
        b"\xe2\x80\x8b",
        b"\xe2\x80\xa8",
        b"\xe2\x80\xa9",
        b"\xe2\x80\xaf",
        b"\xe2\x81\x9f",
        b"\xe3\x80\x80",
        b"\xe2\x80",
        b"\xc2",
        b"\x85",
        b"\xa0",
        b"\x80",
        b"\xff",
        b"\xe2",
        b"\xf0\x9f\x98\x80",
        b"0",
        b"1",
        b"7",
        b"12",
        b"+",
        b"-",
        b"+3",
        b"x",
        b":",
        b"18446744073709551615",
        b"18446744073709551616",
        b"4294967295",
        b"4294967296",
        b"error",
        b"Error",
        b"ERR",
        b"or",
        b"e",
        b"R",
        b"\xc3\x89",
        b"\xe2\x84\xaa",
    ]
}

fn sample(dice: &mut Dice, parts: &[&'static [u8]], most: usize) -> Vec<u8> {
    let mut bytes = Vec::new();
    for _ in 0..dice.roll(most + 1) {
        bytes.extend_from_slice(parts[dice.roll(parts.len())]);
    }
    bytes
}

#[test]
fn content_length_agrees_with_std_on_samples() {
    let parts = pieces();
    let mut dice = Dice(1);
    for _ in 0..60000 {
        let header = sample(&mut dice, &parts, 8);
        assert_eq!(content_length(&header), content_length_by_std(&header), "{:?}", header);
    }
}

#[test]
fn content_length_agrees_with_std_on_length_lines() {
    let parts = pieces();
    let mut dice = Dice(2);
    for _ in 0..60000 {
        let mut header = b"Content-Length:".to_vec();
        header.extend_from_slice(&sample(&mut dice, &parts[9..44], 5));
        header.extend_from_slice(b"\r\n\r\n");
        assert_eq!(content_length(&header), content_length_by_std(&header), "{:?}", header);
    }
}

#[test]
fn content_length_agrees_with_std_on_every_character_around_the_number() {
    let mut buffer = [0u8; 4];
    for code in 0..=0x10ffffu32 {
        let c = match char::from_u32(code) {
            Some(c) => c,
            None => continue,
        };
        let around = c.encode_utf8(&mut buffer).as_bytes();
        let mut header = b"Content-Length:".to_vec();
        header.extend_from_slice(around);
        header.extend_from_slice(b"5");
        header.extend_from_slice(around);
        let expected = if c.is_whitespace() {
            5
        } else {
            content_length_by_std(&header)
        };
        assert_eq!(content_length(&header), expected, "U+{:04X}", code);
    }
}

#[test]
fn content_length_agrees_with_std_on_every_byte_around_the_number() {
    for a in 0..=255u8 {
        for b in 0..=255u8 {
            let header = [b"Content-Length:".as_slice(), &[a], b"5", &[b]].concat();
            assert_eq!(content_length(&header), content_length_by_std(&header), "{:?}", header);
            let header = [b"Content-Length: 5".as_slice(), &[a, b]].concat();
            assert_eq!(content_length(&header), content_length_by_std(&header), "{:?}", header);
            let header = [b"Content-Length:".as_slice(), &[a, b], b"5"].concat();
            assert_eq!(content_length(&header), content_length_by_std(&header), "{:?}", header);
        }
    }
}

#[test]
fn content_length_agrees_with_std_on_every_byte_in_the_name() {
    let name = b"content-length:";
    for at in 0..name.len() {
        for b in 0..=255u8 {
            let mut header = name.to_vec();
            header[at] = b;
            header.extend_from_slice(b" 5\r\n\r\n");
            assert_eq!(content_length(&header), content_length_by_std(&header), "{:?}", header);
        }
    }
}

#[test]
fn error_word_agrees_with_std_on_samples() {
    let parts = pieces();
    let mut dice = Dice(3);
    for _ in 0..60000 {
        let text = sample(&mut dice, &parts[44..], 6);
        assert_eq!(has_error_word(&text), has_error_word_by_std(&text), "{:?}", text);
    }
}

#[test]
fn error_word_agrees_with_std_on_every_character_in_the_word() {
    let word = ['e', 'r', 'r', 'o', 'r'];
    for code in 0..=0x10ffffu32 {
        let c = match char::from_u32(code) {
            Some(c) => c,
            None => continue,
        };
        for at in 0..word.len() {
            let mut text = String::new();
            for (i, w) in word.iter().enumerate() {
                text.push(if i == at { c } else { *w });
            }
            assert_eq!(
                has_error_word(text.as_bytes()),
                has_error_word_by_std(text.as_bytes()),
                "U+{:04X} at {}",
                code,
                at
            );
        }
    }
}

#[test]
fn decoder_agrees_with_std_on_samples() {
    let parts = pieces();
    let mut dice = Dice(4);
    for _ in 0..20000 {
        let mut stream = Vec::new();
        for _ in 0..dice.roll(5) {
            match dice.roll(4) {
                0 => stream.extend_from_slice(&sample(&mut dice, &parts, 6)),
                1 => {
                    let body = String::from_utf8_lossy(&sample(&mut dice, &parts, 4)).into_owned();
                    stream.extend_from_slice(&encode_frame(&body));
                }
                2 => {
                    let body = sample(&mut dice, &parts, 4);
                    stream.extend_from_slice(format!("Content-Length: {}\r\n\r\n", body.len()).as_bytes());
                    stream.extend_from_slice(&body);
                }
                _ => {
                    let body = sample(&mut dice, &parts, 4);
                    stream.extend_from_slice(
                        format!("Content-Type: x\r\ncontent-length:{} \r\n\r\n", dice.roll(12)).as_bytes(),
                    );
                    stream.extend_from_slice(&body);
                }
            }
        }
        let mut decoder = FrameDecoder::new();
        let mut got = Vec::new();
        let mut at = 0;
        while at < stream.len() {
            let take = (1 + dice.roll(9)).min(stream.len() - at);
            got.extend(decoder.feed(&stream[at..at + take]));
            at += take;
        }
        assert_eq!(got, decode_by_std(&stream), "{:?}", stream);
    }
}
