use evm_symex::decode::decode_runtime;
use evm_symex::error::EvmError;

#[test]
fn decodes_prefixed_hex() {
    assert_eq!(decode_runtime(b"0x6001600101"), Ok(vec![0x60, 0x01, 0x60, 0x01, 0x01]));
    assert_eq!(decode_runtime(b"0xABcd\n"), Ok(vec![0xab, 0xcd]));
    assert_eq!(decode_runtime(b"00"), Ok(vec![0x00]));
    assert_eq!(decode_runtime(b"0x"), Ok(vec![]));
    assert_eq!(decode_runtime(b"0x0x60\t "), Ok(vec![0x60]));
}

#[test]
fn rejects_malformed_text() {
    assert_eq!(decode_runtime(b"0x601"), Err(EvmError::MalformedInput));
    assert_eq!(decode_runtime(b"0xzz"), Err(EvmError::MalformedInput));
    assert_eq!(decode_runtime(b" 0x60"), Err(EvmError::MalformedInput));
}
