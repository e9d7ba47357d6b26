use protohackers::insecure_sockets_layer::cipher_stream::{
    cipher_spec_apply, cipher_spec_reverse, CipherStream,
};
use protohackers::insecure_sockets_layer::ciphers::{
    AddN, AddPos, Cipher, ReverseBits, XorN, XorPos,
};
use protohackers::insecure_sockets_layer::connection::{
    read_cipher_spec, validate_cipher_spec, CipherOp, CipherSpecError,
};
use protohackers::insecure_sockets_layer::toy_workshop::{
    is_valid_request, parse_toy_quantity, prioritise_work, read_toy_quantity,
};

#[test]
fn test_add_pos_cipher() {
    let add_pos = AddPos;
    let message = vec![0x68, 0x65, 0x6c, 0x6c, 0x6f]; // hello

    let cipher_text = add_pos.apply(&message, 0);
    assert_eq!(cipher_text, vec![0x68, 0x66, 0x6e, 0x6f, 0x73]);
    let cipher_text = add_pos.apply(&cipher_text, 0);
    assert_eq!(cipher_text, vec![0x68, 0x67, 0x70, 0x72, 0x77]);

    let cipher_text = add_pos.reverse(&cipher_text, 0);
    assert_eq!(cipher_text, vec![0x68, 0x66, 0x6e, 0x6f, 0x73]);
    let cipher_text = add_pos.reverse(&cipher_text, 0);
    assert_eq!(cipher_text, message);
}

#[test]
fn test_add_pos_with_position() {
    let add_pos = AddPos;
    let message = vec![0x68, 0x65, 0x6c, 0x6c, 0x6f]; // hello
    assert_eq!(
        add_pos.apply(&message, 2),
        vec![0x6a, 0x68, 0x70, 0x71, 0x75]
    );
}

#[test]
fn test_validate_cipher_spec() {
    let cipher_spec: Vec<Box<dyn Cipher>> = vec![Box::new(XorN::new(0))];
    assert!(validate_cipher_spec(&cipher_spec).is_err());

    let cipher_spec: Vec<Box<dyn Cipher>> = vec![Box::new(ReverseBits), Box::new(ReverseBits)];
    assert!(validate_cipher_spec(&cipher_spec).is_err());

    let cipher_spec: Vec<Box<dyn Cipher>> = vec![
        Box::new(XorN::new(0xa0)),
        Box::new(XorN::new(0x0b)),
        Box::new(XorN::new(0xab)),
    ];
    assert!(validate_cipher_spec(&cipher_spec).is_err());
}

#[test]
fn test_parse_toy_qtd() {
    assert_eq!(parse_toy_quantity("15x dog on a string"), 15);
}

#[test]
fn test_prioritise_work() {
    let request = "10x toy car,15x dog on a string,4x inflatable motorcycle";
    let toy = prioritise_work(request);
    assert_eq!(toy, "15x dog on a string");
}

#[test]
fn validate_accepts_a_cipher_that_changes_the_probe() {
    let cipher_spec: Vec<Box<dyn Cipher>> = vec![Box::new(XorN::new(1))];
    assert_eq!(validate_cipher_spec(&cipher_spec), Ok(()));
    let cipher_spec: Vec<Box<dyn Cipher>> = vec![Box::new(AddPos)];
    assert_eq!(validate_cipher_spec(&cipher_spec), Ok(()));
    let cipher_spec: Vec<Box<dyn Cipher>> = Vec::new();
    assert_eq!(validate_cipher_spec(&cipher_spec), Err(CipherSpecError::NoOp));
}

#[test]
fn reverse_bits_of_each_bit() {
    let bytes = vec![0x01, 0x02, 0x04, 0x08, 0x10, 0x20, 0x40, 0x80, 0x00, 0xff, 0x69];
    let flipped = ReverseBits.apply(&bytes, 7);
    assert_eq!(flipped, vec![0x80, 0x40, 0x20, 0x10, 0x08, 0x04, 0x02, 0x01, 0x00, 0xff, 0x96]);
    assert_eq!(ReverseBits.reverse(&flipped, 7), bytes);
    for byte in 0..=255u8 {
        assert_eq!(ReverseBits.apply(&[byte], 0), vec![byte.reverse_bits()]);
    }
}

#[test]
fn xor_n_and_xor_pos() {
    let message = vec![0x68, 0x65, 0x6c, 0x6c, 0x6f];
    assert_eq!(XorN::new(1).apply(&message, 0), vec![0x69, 0x64, 0x6d, 0x6d, 0x6e]);
    assert_eq!(XorN::new(1).reverse(&[0x69, 0x64, 0x6d, 0x6d, 0x6e], 0), message);
    assert_eq!(XorPos.apply(&message, 0), vec![0x68, 0x64, 0x6e, 0x6f, 0x6b]);
    assert_eq!(XorPos.apply(&message, 255), vec![0x68 ^ 0xff, 0x65, 0x6c ^ 1, 0x6c ^ 2, 0x6f ^ 3]);
    assert_eq!(XorPos.reverse(&XorPos.apply(&message, 1000), 1000), message);
    assert_eq!(XorPos.apply(&message, u64::MAX), vec![0x68 ^ 0xff, 0x65, 0x6c ^ 1, 0x6c ^ 2, 0x6f ^ 3]);
}

#[test]
fn add_n_wraps_around() {
    assert_eq!(AddN::new(1).apply(&[0xff, 0x00, 0x7f], 0), vec![0x00, 0x01, 0x80]);
    assert_eq!(AddN::new(1).reverse(&[0x00, 0x01, 0x80], 0), vec![0xff, 0x00, 0x7f]);
    assert_eq!(AddN::new(200).apply(&[100], 0), vec![44]);
    assert_eq!(AddN::new(200).reverse(&[44], 0), vec![100]);
}

#[test]
fn add_pos_wraps_around_the_position() {
    assert_eq!(AddPos.apply(&[10, 10, 10], 254), vec![8, 9, 10]);
    assert_eq!(AddPos.reverse(&[8, 9, 10], 254), vec![10, 10, 10]);
    assert_eq!(AddPos.apply(&[10, 10], 256 * 5 + 3), vec![13, 14]);
}

#[test]
fn apply_runs_the_operations_in_order() {
    let ciphers: Vec<Box<dyn Cipher>> = vec![Box::new(XorN::new(1)), Box::new(ReverseBits)];
    let message = vec![0x68, 0x65, 0x6c, 0x6c, 0x6f];
    let ciphered = cipher_spec_apply(&ciphers, 0, message.clone());
    assert_eq!(ciphered, vec![0x96, 0x26, 0xb6, 0xb6, 0x76]);
    assert_eq!(cipher_spec_reverse(&ciphers, 0, ciphered), message);
}

#[test]
fn apply_twice_with_position() {
    let ciphers: Vec<Box<dyn Cipher>> = vec![Box::new(AddPos), Box::new(AddPos)];
    let message = vec![0x68, 0x65, 0x6c, 0x6c, 0x6f];
    let ciphered = cipher_spec_apply(&ciphers, 0, message.clone());
    assert_eq!(ciphered, vec![0x68, 0x67, 0x70, 0x72, 0x77]);
    assert_eq!(cipher_spec_reverse(&ciphers, 0, ciphered), message);
}

#[test]
fn reverse_undoes_apply_for_mixed_operations() {
    let ciphers: Vec<Box<dyn Cipher>> = vec![
        Box::new(XorN::new(123)),
        Box::new(AddPos),
        Box::new(ReverseBits),
        Box::new(AddN::new(77)),
        Box::new(XorPos),
    ];
    let message: Vec<u8> = (0..=255u8).collect();
    for position in [0u64, 1, 255, 256, 1 << 40] {
        let ciphered = cipher_spec_apply(&ciphers, position, message.clone());
        assert_ne!(ciphered, message);
        assert_eq!(cipher_spec_reverse(&ciphers, position, ciphered), message);
    }
}

#[test]
fn test_write() {
    let ciphers: Vec<Box<dyn Cipher>> = vec![Box::new(XorN::new(1)), Box::new(ReverseBits)];
    let message = vec![0x68, 0x65, 0x6c, 0x6c, 0x6f]; // hello
    let mut stream = CipherStream::new(ciphers);

    assert_eq!(stream.write(message), vec![0x96, 0x26, 0xb6, 0xb6, 0x76]);
}

#[test]
fn test_write_with_position() {
    let ciphers: Vec<Box<dyn Cipher>> = vec![Box::new(AddPos), Box::new(AddPos)];
    let message = vec![0x68, 0x65, 0x6c, 0x6c, 0x6f]; // hello
    let mut stream = CipherStream::new(ciphers);

    assert_eq!(stream.write(message), vec![0x68, 0x67, 0x70, 0x72, 0x77]);
}

#[test]
fn test_read() {
    let ciphers: Vec<Box<dyn Cipher>> = vec![Box::new(XorN::new(1)), Box::new(ReverseBits)];
    let message = vec![0x96, 0x26, 0xb6, 0xb6, 0x76];
    let mut stream = CipherStream::new(ciphers);

    assert_eq!(stream.read(message), vec![0x68, 0x65, 0x6c, 0x6c, 0x6f]); // hello
}

#[test]
fn test_read_with_position() {
    let ciphers: Vec<Box<dyn Cipher>> = vec![Box::new(AddPos), Box::new(AddPos)];
    let message = vec![0x68, 0x67, 0x70, 0x72, 0x77];
    let mut stream = CipherStream::new(ciphers);

    assert_eq!(stream.read(message), vec![0x68, 0x65, 0x6c, 0x6c, 0x6f]); // hello
}

#[test]
fn stream_write_keeps_the_position() {
    let ciphers: Vec<Box<dyn Cipher>> = vec![Box::new(AddPos)];
    let mut stream = CipherStream::new(ciphers);
    assert_eq!(stream.write(vec![0x68, 0x65]), vec![0x68, 0x66]);
    assert_eq!(stream.write(vec![0x6c, 0x6c, 0x6f]), vec![0x6e, 0x6f, 0x73]);
}

#[test]
fn stream_read_keeps_the_position() {
    let ciphers: Vec<Box<dyn Cipher>> = vec![Box::new(AddPos), Box::new(AddPos)];
    let mut stream = CipherStream::new(ciphers);
    assert_eq!(stream.read(vec![0x68, 0x67]), vec![0x68, 0x65]);
    assert_eq!(stream.read(vec![0x70, 0x72, 0x77]), vec![0x6c, 0x6c, 0x6f]);
    // Writing has its own position.
    assert_eq!(stream.write(vec![0x68]), vec![0x68]);
}

#[test]
fn server_test_server() {
    // xor(123), add the position, reverse the bits
    let (ops, used) = read_cipher_spec(&[0x02, 0x7b, 0x05, 0x01, 0x00, 0xf2]).unwrap().unwrap();
    assert_eq!(used, 5);
    assert_eq!(
        ops,
        vec![Box::new(CipherOp::XorN(123)), Box::new(CipherOp::AddPos), Box::new(CipherOp::ReverseBits)]
    );
    let mut stream = CipherStream::new(ops);
    let request = stream.read(vec![
        0xf2, 0x20, 0xba, 0x44, 0x18, 0x84, 0xba, 0xaa, 0xd0, 0x26, 0x44, 0xa4, 0xa8, 0x7e,
    ]);
    assert_eq!(request, b"4x dog,5x car\n".to_vec());
    let line = String::from_utf8(request).unwrap();
    let toy = prioritise_work(line.trim_end());
    assert_eq!(toy, "5x car");
    let mut answer = toy.as_bytes().to_vec();
    answer.push(b'\n');
    assert_eq!(stream.write(answer), vec![0x72, 0x20, 0xba, 0xd8, 0x78, 0x70, 0xee]);

    let request = stream.read(vec![
        0x6a, 0x48, 0xd6, 0x58, 0x34, 0x44, 0xd6, 0x7a, 0x98, 0x4e, 0x0c, 0xcc, 0x94, 0x31,
    ]);
    assert_eq!(request, b"3x rat,2x cat\n".to_vec());
    assert_eq!(
        stream.write(b"3x rat\n".to_vec()),
        vec![0xf2, 0xd0, 0x26, 0xc8, 0xa4, 0xd8, 0x7e]
    );
}

#[test]
fn cipher_spec_that_has_not_ended() {
    assert_eq!(read_cipher_spec(&[]), Ok(None));
    assert_eq!(read_cipher_spec(&[0x01]), Ok(None));
    assert_eq!(read_cipher_spec(&[0x02]), Ok(None));
    assert_eq!(read_cipher_spec(&[0x02, 0x00]), Ok(None));
    assert_eq!(read_cipher_spec(&[0x04, 0x07, 0x05]), Ok(None));
}

#[test]
fn cipher_spec_with_an_unknown_operation() {
    assert_eq!(read_cipher_spec(&[0x06]), Err(CipherSpecError::InvalidCipher(6)));
    assert_eq!(read_cipher_spec(&[0x01, 0xff, 0x00]), Err(CipherSpecError::InvalidCipher(0xff)));
    // The operand of an operation is no operation.
    assert_eq!(
        read_cipher_spec(&[0x02, 0x09, 0x00]),
        Ok(Some((vec![Box::new(CipherOp::XorN(9))], 3)))
    );
}

#[test]
fn cipher_spec_that_does_nothing() {
    assert_eq!(read_cipher_spec(&[0x00]), Err(CipherSpecError::NoOp));
    assert_eq!(read_cipher_spec(&[0x02, 0x00, 0x00]), Err(CipherSpecError::NoOp));
    assert_eq!(read_cipher_spec(&[0x01, 0x01, 0x00]), Err(CipherSpecError::NoOp));
    assert_eq!(
        read_cipher_spec(&[0x02, 0xa0, 0x02, 0x0b, 0x02, 0xab, 0x00]),
        Err(CipherSpecError::NoOp)
    );
    assert_eq!(read_cipher_spec(&[0x04, 0x80, 0x04, 0x80, 0x00]), Err(CipherSpecError::NoOp));
}

#[test]
fn cipher_spec_with_every_operation() {
    let (ops, used) =
        read_cipher_spec(&[0x01, 0x02, 0x01, 0x03, 0x04, 0x02, 0x05, 0x00, 0x01]).unwrap().unwrap();
    assert_eq!(used, 8);
    assert_eq!(
        ops,
        vec![
            Box::new(CipherOp::ReverseBits),
            Box::new(CipherOp::XorN(1)),
            Box::new(CipherOp::XorPos),
            Box::new(CipherOp::AddN(2)),
            Box::new(CipherOp::AddPos),
        ]
    );
    let same: Vec<Box<dyn Cipher>> = vec![
        Box::new(ReverseBits),
        Box::new(XorN::new(1)),
        Box::new(XorPos),
        Box::new(AddN::new(2)),
        Box::new(AddPos),
    ];
    let text = b"the quick brown fox".to_vec();
    assert_eq!(cipher_spec_apply(&ops, 9, text.clone()), cipher_spec_apply(&same, 9, text.clone()));
    assert_eq!(cipher_spec_reverse(&ops, 9, text.clone()), cipher_spec_reverse(&same, 9, text));
}

#[test]
fn toy_quantities() {
    assert_eq!(read_toy_quantity(b"15x dog on a string"), Some(15));
    assert_eq!(read_toy_quantity(b"+7x car"), Some(7));
    assert_eq!(read_toy_quantity(b"007x car"), Some(7));
    assert_eq!(read_toy_quantity(b"18446744073709551615x car"), Some(u64::MAX));
    assert_eq!(read_toy_quantity(b"18446744073709551616x car"), None);
    assert_eq!(read_toy_quantity(b"x car"), None);
    assert_eq!(read_toy_quantity(b"15 dogs"), None);
    assert_eq!(read_toy_quantity(b" 15x dog"), None);
    assert_eq!(read_toy_quantity(b""), None);
    assert_eq!(read_toy_quantity(b"3xx"), Some(3));
}

#[test]
fn valid_requests() {
    assert!(is_valid_request("10x toy car,15x dog on a string,4x inflatable motorcycle"));
    assert!(is_valid_request("1x a"));
    assert!(!is_valid_request(""));
    assert!(!is_valid_request("1x a,"));
    assert!(!is_valid_request(",1x a"));
    assert!(!is_valid_request("1x a,b"));
    assert!(is_valid_request("1x \u{e9}t\u{e9},2x na\u{ef}ve"));
}

#[test]
fn prioritise_takes_the_last_of_equals() {
    assert_eq!(prioritise_work("3x a,3x b,1x c"), "3x b");
    assert_eq!(prioritise_work("3x a"), "3x a");
    assert_eq!(prioritise_work("1x a,2x b,3x c"), "3x c");
    assert_eq!(prioritise_work("3x a,2x b,1x c"), "3x a");
    assert_eq!(prioritise_work("0x a,0x b"), "0x b");
}

#[test]
fn prioritise_keeps_other_alphabets() {
    assert_eq!(prioritise_work("1x \u{e9}t\u{e9},2x na\u{ef}ve,1x z"), "2x na\u{ef}ve");
    assert_eq!(prioritise_work("2x \u{65e5}\u{672c},1x z"), "2x \u{65e5}\u{672c}");
    assert_eq!(prioritise_work("1x z,2x \u{65e5}\u{672c}"), "2x \u{65e5}\u{672c}");
}
