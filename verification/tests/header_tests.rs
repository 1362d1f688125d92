use dplane::header::{Field, Header};

fn field(start_byte_pos: usize, start_bit_mask: u8, end_byte_pos: usize, end_bit_mask: u8) -> Field {
    Field { start_byte_pos, start_bit_mask, end_byte_pos, end_bit_mask }
}

#[test]
fn test_field_new() {
    let mut field = field(0, 0, 0, 0);

    field = Field::new(&field, 48);
    assert_eq!(field.start_byte_pos, 0);
    assert_eq!(field.start_bit_mask, 0xff);
    assert_eq!(field.end_byte_pos, 5);
    assert_eq!(field.end_bit_mask, 0xff);

    field = Field::new(&field, 48);
    assert_eq!(field.start_byte_pos, 6);
    assert_eq!(field.start_bit_mask, 0xff);
    assert_eq!(field.end_byte_pos, 11);
    assert_eq!(field.end_bit_mask, 0xff);

    field = Field::new(&field, 8);
    assert_eq!(field.start_byte_pos, 12);
    assert_eq!(field.start_bit_mask, 0xff);
    assert_eq!(field.end_byte_pos, 12);
    assert_eq!(field.end_bit_mask, 0xff);

    field = Field::new(&field, 1);
    assert_eq!(field.start_byte_pos, 13);
    assert_eq!(field.start_bit_mask, 0x80);
    assert_eq!(field.end_byte_pos, 13);
    assert_eq!(field.end_bit_mask, 0x80);

    field = Field::new(&field, 2);
    assert_eq!(field.start_byte_pos, 13);
    assert_eq!(field.start_bit_mask, 0x60);
    assert_eq!(field.end_byte_pos, 13);
    assert_eq!(field.end_bit_mask, 0x60);

    field = Field::new(&field, 16);
    assert_eq!(field.start_byte_pos, 13);
    assert_eq!(field.start_bit_mask, 0x1F);
    assert_eq!(field.end_byte_pos, 15);
    assert_eq!(field.end_bit_mask, 0xE0);

    field = Field::new(&field, 2);
    assert_eq!(field.start_byte_pos, 15);
    assert_eq!(field.start_bit_mask, 0x18);
    assert_eq!(field.end_byte_pos, 15);
    assert_eq!(field.end_bit_mask, 0x18);

    field = Field::new(&field, 3);
    assert_eq!(field.start_byte_pos, 15);
    assert_eq!(field.start_bit_mask, 0x7);
    assert_eq!(field.end_byte_pos, 15);
    assert_eq!(field.end_bit_mask, 0x7);

    field = Field::new(&field, 8);
    assert_eq!(field.start_byte_pos, 16);
    assert_eq!(field.start_bit_mask, 0xff);
    assert_eq!(field.end_byte_pos, 16);
    assert_eq!(field.end_bit_mask, 0xff);
}

#[test]
fn test_copy_ptr_value() {
    let mut src = vec![0u8; 10];
    let mut dst = vec![0u8; 10];

    src[0] = 10;
    src[1] = 20;
    src[2] = 30;
    let mut f = field(0, 0xff, 2, 0xff);
    let mut next = f.copy_ptr_value(0, &src, &mut dst, 0);
    assert_eq!(src[0], dst[0]);
    assert_eq!(src[1], dst[1]);
    assert_eq!(src[2], dst[2]);
    assert_eq!(next, 3);

    src[3] = 40;
    src[4] = 50;
    src[5] = 60;
    f = field(0, 0xff, 2, 0xff);
    next = f.copy_ptr_value(3, &src, &mut dst, 3);
    assert_eq!(src[3], dst[3]);
    assert_eq!(src[4], dst[4]);
    assert_eq!(src[5], dst[5]);
    assert_eq!(next, 3);

    src[6] = 70;
    src[7] = 129;
    f = field(6, 0xff, 7, 0x80);
    next = f.copy_ptr_value(0, &src, &mut dst, 6);
    assert_eq!(src[6], dst[6]);
    assert_eq!(128, dst[7]);
    assert_eq!(next, 2);
}

#[test]
fn test_cmp_pkt() {
    let pkt: Vec<u8> = vec![10, 20, 129, 40, 50, 60, 70, 80, 64, 100];

    let f = field(0, 0xff, 2, 0x80);
    let value = vec![10u8, 20, 128];
    assert!(f.cmp_pkt(&pkt, 0, &value, 0x80));

    // LPM
    let f = field(0, 0xff, 3, 0xff);
    let value = vec![10u8, 20, 129];
    assert!(f.cmp_pkt(&pkt, 0, &value, 0xff));

    // LPM
    let f = field(0, 0xff, 3, 0xff);
    let value = vec![10u8, 20, 129, 32];
    assert!(f.cmp_pkt(&pkt, 0, &value, 0xE0));

    let f = field(0, 0xff, 3, 0xff);
    let value = vec![40u8, 50, 60, 70];
    assert!(f.cmp_pkt(&pkt, 3, &value, 0xff));

    let f = field(0, 0xC0, 0, 0xC0);
    let value = vec![64u8];
    assert!(f.cmp_pkt(&pkt, 8, &value, 0xC0));
}

#[test]
fn test_cmp_pkt_ge_value() {
    let mut pkt = vec![0u8; 10];
    pkt[0] = 10;
    pkt[1] = 20;
    pkt[2] = 30;

    let f = field(0, 0xff, 2, 0xff);
    let mut value = vec![10u8, 20, 30];
    assert!(f.cmp_pkt_ge_value(&pkt, 0, &value, 0xff));

    value[0] = 10;
    value[1] = 20;
    value[2] = 31;
    assert!(!f.cmp_pkt_ge_value(&pkt, 0, &value, 0xff));

    value[0] = 10;
    value[1] = 20;
    value[2] = 29;
    assert!(f.cmp_pkt_ge_value(&pkt, 0, &value, 0xff));

    value[0] = 20;
    value[1] = 20;
    value[2] = 30;
    assert!(!f.cmp_pkt_ge_value(&pkt, 0, &value, 0xff));

    pkt[0] = 0;
    pkt[1] = 0;
    pkt[2] = 30;

    value[0] = 0;
    value[1] = 0;
    value[2] = 30;
    assert!(f.cmp_pkt_ge_value(&pkt, 0, &value, 0xff));

    value[0] = 0;
    value[1] = 0;
    value[2] = 29;
    assert!(f.cmp_pkt_ge_value(&pkt, 0, &value, 0xff));
}

#[test]
fn test_cmp_pkt_le_value() {
    let mut pkt = vec![0u8; 10];
    pkt[0] = 10;
    pkt[1] = 20;
    pkt[2] = 30;

    let f = field(0, 0xff, 2, 0xff);
    let mut value = vec![10u8, 20, 30];
    assert!(f.cmp_pkt_le_value(&pkt, 0, &value, 0xff));

    value[0] = 10;
    value[1] = 20;
    value[2] = 31;
    assert!(f.cmp_pkt_le_value(&pkt, 0, &value, 0xff));

    value[0] = 10;
    value[1] = 20;
    value[2] = 29;
    assert!(!f.cmp_pkt_le_value(&pkt, 0, &value, 0xff));

    value[0] = 20;
    value[1] = 20;
    value[2] = 30;
    assert!(f.cmp_pkt_le_value(&pkt, 0, &value, 0xff));

    pkt[0] = 0;
    pkt[1] = 0;
    pkt[2] = 30;

    value[0] = 0;
    value[1] = 0;
    value[2] = 30;
    assert!(f.cmp_pkt_le_value(&pkt, 0, &value, 0xff));

    value[0] = 0;
    value[1] = 0;
    value[2] = 29;
    assert!(!f.cmp_pkt_le_value(&pkt, 0, &value, 0xff));
}

#[test]
fn field_get_returns_the_four_positions() {
    let f = Field::new(&field(0, 0, 0, 0), 12);
    assert_eq!(f.get(), (0, 0xff, 1, 0xf0));
}

#[test]
fn header_fields_lie_back_to_back() {
    // IPv4: version, ihl, tos, length, id, flags, offset, ttl, proto, csum, src, dst
    let h = Header::new(&[4, 4, 8, 16, 16, 3, 13, 8, 8, 16, 32, 32], &[11], &[9]);
    assert_eq!(h.fields.len(), 12);
    assert_eq!(h.fields_len, 12);
    assert_eq!(h.used_fields_len, 1);
    let version = h.fields[0];
    assert_eq!((version.start_byte_pos, version.start_bit_mask, version.end_byte_pos, version.end_bit_mask), (0, 0xf0, 0, 0xf0));
    let ihl = h.fields[1];
    assert_eq!((ihl.start_byte_pos, ihl.start_bit_mask, ihl.end_byte_pos, ihl.end_bit_mask), (0, 0x0f, 0, 0x0f));
    let dst = h.fields[11];
    assert_eq!((dst.start_byte_pos, dst.start_bit_mask, dst.end_byte_pos, dst.end_bit_mask), (16, 0xff, 19, 0xff));
    // the used and parsed fields are copies of the named ones
    assert_eq!(h.used_fields[0].start_byte_pos, 16);
    assert_eq!(h.parse_fields[0].start_byte_pos, h.fields[9].start_byte_pos);
    assert_eq!(h.parse_fields[0].end_byte_pos, 11);
}

#[test]
fn header_clone_keeps_the_layout() {
    let h = Header::new(&[48, 48, 16], &[0, 1], &[2]);
    let c = h.clone();
    assert_eq!(c.fields.len(), 3);
    assert_eq!(c.fields[2].start_byte_pos, 12);
    assert_eq!(c.used_fields.len(), 2);
    assert_eq!(c.parse_fields[0].end_byte_pos, 13);
}

#[test]
fn cmp_pkt_detects_a_mismatch() {
    let pkt: Vec<u8> = vec![10, 20, 30, 40];
    let f = field(0, 0xff, 3, 0xff);
    assert!(!f.cmp_pkt(&pkt, 0, &vec![10u8, 21, 30, 40], 0xff));
    // the last byte is compared under the mask
    assert!(f.cmp_pkt(&pkt, 0, &vec![10u8, 20, 30, 47], 0xf0));
}

#[test]
fn match_is_between_ge_and_le() {
    let pkt: Vec<u8> = vec![1, 2, 3, 4, 5, 6];
    let f = field(1, 0xff, 3, 0xff);
    for v in [vec![2u8, 3, 4], vec![2u8, 3, 5], vec![2u8, 3, 3], vec![1u8, 9, 9]] {
        let eq = f.cmp_pkt(&pkt, 0, &v, 0xff);
        let between = f.cmp_pkt_ge_value(&pkt, 0, &v, 0xff) && f.cmp_pkt_le_value(&pkt, 0, &v, 0xff);
        assert_eq!(eq, between);
    }
}

#[test]
fn short_masked_key_orders_equal_but_does_not_match() {
    // a two-byte field against a one-byte key under a partial mask: the
    // ordering compares the masked byte, the match the whole first byte
    let pkt: Vec<u8> = vec![0x13, 0];
    let f = field(0, 0xff, 1, 0xff);
    let v = vec![0x12u8];
    assert!(!f.cmp_pkt(&pkt, 0, &v, 0xf0));
    assert!(f.cmp_pkt_ge_value(&pkt, 0, &v, 0xf0));
    assert!(f.cmp_pkt_le_value(&pkt, 0, &v, 0xf0));
}
