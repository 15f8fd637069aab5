use dns_codec::{BitDecoder, BitEncoder, Decoder, Encoder, Error};

#[derive(Debug, Default, PartialEq)]
struct Header {
    id: u16,
    qr: u8,
    opcode: u8,
    aa: u8,
    tc: u8,
    rd: u8,
}

impl Header {
    fn from_bytes(buf: &[u8]) -> Result<Self, Error> {
        let mut res = Header::default();
        let mut dec = Decoder::new(buf);
        res.id = dec.read_u16()?;
        let fields = dec.read_bits(&[1, 4, 1, 1, 1])?;
        res.qr = fields[0];
        res.opcode = fields[1];
        res.aa = fields[2];
        res.tc = fields[3];
        res.rd = fields[4];
        Ok(res)
    }

    fn to_bytes(&self) -> Result<Vec<u8>, Error> {
        let mut buf = Vec::new();
        let mut enc = Encoder::new(&mut buf);
        enc.write_u16(self.id);
        enc.write_bits(&[
            (self.qr, 1),
            (self.opcode, 4),
            (self.aa, 1),
            (self.tc, 1),
            (self.rd, 1),
        ])?;
        Ok(buf)
    }
}

#[test]
fn test_encode_decode() {
    let header = Header {
        id: 100,
        qr: 1,
        opcode: 7,
        aa: 1,
        tc: 0,
        rd: 1,
    };
    let header_bytes = header.to_bytes();
    assert!(header_bytes.is_ok());
    let header_bytes = header_bytes.unwrap();
    let header_from_bytes = Header::from_bytes(&header_bytes);
    assert!(header_from_bytes.is_ok());
    let header_from_bytes = header_from_bytes.unwrap();
    assert_eq!(header, header_from_bytes);
}

#[test]
fn test_bit_encoder_decoder() {
    let mut byte: u8 = 0;
    let mut enc = BitEncoder::new(&mut byte);
    assert_eq!(enc.write(1, 1), Ok(()));
    assert_eq!(enc.write(7, 4), Ok(()));
    assert_eq!(enc.write(1, 1), Ok(()));
    assert_eq!(enc.write(0, 1), Ok(()));
    assert_eq!(enc.write(1, 1), Ok(()));

    let mut dec = BitDecoder::new(&byte);
    assert_eq!(dec.read(1), Ok(1));
    assert_eq!(dec.read(4), Ok(7));
    assert_eq!(dec.read(1), Ok(1));
    assert_eq!(dec.read(1), Ok(0));
    assert_eq!(dec.read(1), Ok(1));
}

#[test]
fn header_id_and_first_flag_byte_bits() {
    let header = Header {
        id: 100,
        qr: 1,
        opcode: 7,
        aa: 1,
        tc: 0,
        rd: 1,
    };
    assert_eq!(header.to_bytes().unwrap(), vec![0x00, 0x64, 0b1011_1101]);
}

#[test]
fn bit_fields_filling_a_byte_read_back() {
    let mut byte: u8 = 0;
    let mut enc = BitEncoder::new(&mut byte);
    assert_eq!(enc.write(0, 1), Ok(()));
    assert_eq!(enc.write(5, 3), Ok(()));
    assert_eq!(enc.write(9, 4), Ok(()));
    assert_eq!(byte, 0b0101_1001);
    let mut dec = BitDecoder::new(&byte);
    assert_eq!(dec.read(1), Ok(0));
    assert_eq!(dec.read(3), Ok(5));
    assert_eq!(dec.read(4), Ok(9));
}

#[test]
fn bit_write_keeps_low_bits_only() {
    let mut byte: u8 = 0;
    let mut enc = BitEncoder::new(&mut byte);
    assert_eq!(enc.write(0xFF, 3), Ok(()));
    assert_eq!(byte, 0b1110_0000);
}

#[test]
fn bit_write_replaces_the_field() {
    let mut byte: u8 = 0xFF;
    let mut enc = BitEncoder::new(&mut byte);
    assert_eq!(enc.write(0, 4), Ok(()));
    assert_eq!(byte, 0x0F);
}

#[test]
fn bit_width_out_of_range() {
    let mut byte: u8 = 0;
    let mut enc = BitEncoder::new(&mut byte);
    assert_eq!(enc.write(1, 0), Err(Error::BitsWidth(0)));
    assert_eq!(enc.write(1, 9), Err(Error::BitsWidth(9)));
    let mut dec = BitDecoder::new(&byte);
    assert_eq!(dec.read(0), Err(Error::BitsWidth(0)));
    assert_eq!(dec.read(9), Err(Error::BitsWidth(9)));
}

#[test]
fn bit_write_past_the_byte() {
    let mut byte: u8 = 0;
    let mut enc = BitEncoder::new(&mut byte);
    assert_eq!(enc.write(0, 7), Ok(()));
    assert_eq!(enc.write(3, 2), Err(Error::BitsWrite { offset: 7, width: 2 }));
    assert_eq!(enc.write(1, 1), Ok(()));
    assert_eq!(enc.write(1, 1), Err(Error::BitsWrite { offset: 8, width: 1 }));
    assert_eq!(byte, 1);
}

#[test]
fn bit_read_past_the_byte() {
    let byte: u8 = 0xAB;
    let mut dec = BitDecoder::new(&byte);
    assert_eq!(dec.read(6), Ok(0xAB >> 2));
    assert_eq!(dec.read(3), Err(Error::BitsRead { offset: 6, width: 3 }));
    assert_eq!(dec.read(2), Ok(3));
    assert_eq!(dec.read(1), Err(Error::BitsRead { offset: 8, width: 1 }));
}

#[test]
fn write_bits_refuses_and_writes_nothing() {
    let mut buf = vec![7u8];
    let mut enc = Encoder::new(&mut buf);
    enc.set_offset(1);
    assert_eq!(
        enc.write_bits(&[(1, 4), (1, 5)]),
        Err(Error::BitsWrite { offset: 4, width: 5 })
    );
    assert_eq!(enc.write_bits(&[(1, 0)]), Err(Error::BitsWidth(0)));
    assert_eq!(enc.offset(), 1);
    assert_eq!(buf, vec![7]);
}

#[test]
fn big_endian_writes() {
    let mut buf = Vec::new();
    let mut enc = Encoder::new(&mut buf);
    enc.write_u8(0xAB);
    enc.write_u16(0x1234);
    enc.write_u32(0xDEADBEEF);
    enc.write_str("hi");
    assert_eq!(enc.offset(), 9);
    assert_eq!(buf, vec![0xAB, 0x12, 0x34, 0xDE, 0xAD, 0xBE, 0xEF, b'h', b'i']);
}

#[test]
fn encoder_overwrites_then_appends() {
    let mut buf = vec![1u8, 2, 3];
    let mut enc = Encoder::new(&mut buf);
    enc.set_offset(2);
    enc.write_slice(&[9, 9, 9]);
    assert_eq!(enc.offset(), 5);
    enc.set_offset(0);
    enc.write_u16(0x0506);
    assert_eq!(buf, vec![5, 6, 9, 9, 9]);
}

#[test]
fn encoder_set_offset_past_end_fills_zeros() {
    let mut buf = vec![1u8];
    let mut enc = Encoder::new(&mut buf);
    enc.set_offset(4);
    enc.write_u8(8);
    assert_eq!(buf, vec![1, 0, 0, 0, 8]);
}

#[test]
fn decoder_reads_big_endian() {
    let data = [0x12u8, 0x34, 0xDE, 0xAD, 0xBE, 0xEF, 0x07];
    let mut dec = Decoder::new(&data);
    assert_eq!(dec.read_u16(), Ok(0x1234));
    assert_eq!(dec.read_u32(), Ok(0xDEADBEEF));
    assert_eq!(dec.offset(), 6);
    assert_eq!(dec.read_u8(), Ok(7));
    assert_eq!(dec.offset(), 7);
}

#[test]
fn decoder_out_of_bounds_reports_exactly() {
    let data = [1u8, 2, 3];
    let mut dec = Decoder::new(&data);
    assert_eq!(dec.read_slice(2), Ok(&data[0..2]));
    assert_eq!(
        dec.read_u16(),
        Err(Error::Read { offset: 2, read_len: 2, buf_len: 3 })
    );
    assert_eq!(dec.offset(), 2);
    assert_eq!(
        dec.read_u32(),
        Err(Error::Read { offset: 2, read_len: 4, buf_len: 3 })
    );
    dec.set_offset(5);
    assert_eq!(
        dec.read_u8(),
        Err(Error::Read { offset: 5, read_len: 1, buf_len: 3 })
    );
    let empty: [u8; 0] = [];
    let mut dec = Decoder::new(&empty);
    assert_eq!(dec.read_bits(&[8]), Err(Error::Read { offset: 0, read_len: 1, buf_len: 0 }));
}

#[test]
fn read_bits_unpacks_and_reports_field_errors() {
    let data = [0b1011_1101u8, 0xFF];
    let mut dec = Decoder::new(&data);
    assert_eq!(dec.read_bits(&[1, 4, 1, 1, 1]), Ok(vec![1, 7, 1, 0, 1]));
    assert_eq!(dec.read_bits(&[4, 5]), Err(Error::BitsRead { offset: 4, width: 5 }));
    assert_eq!(dec.offset(), 2);
}
