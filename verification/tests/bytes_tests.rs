use sketchbook::bytes::{bytes_from_words, ramp_pattern, vec32to8, vec8to32, words_from_bytes, DataStuff};

fn sample() -> DataStuff {
    DataStuff {
        val1: 234.24213f64.to_bits(),
        val2: 0.001419f32.to_bits(),
        val3: -9432235,
        val4: 201,
        text: String::from("test message blah blah"),
        val5: 24323,
    }
}

#[test]
fn to_bytes_layout() {
    let d = DataStuff {
        val1: 0x0102030405060708,
        val2: 0x0a0b0c0d,
        val3: -2,
        val4: 7,
        text: String::from("hé"),
        val5: 0x11223344,
    };
    let b = d.to_bytes();
    let mut want: Vec<u8> = vec![1, 2, 3, 4, 5, 6, 7, 8, 0x0a, 0x0b, 0x0c, 0x0d];
    want.extend_from_slice(&[0xff, 0xff, 0xff, 0xff, 0xff, 0xff, 0xff, 0xfe, 7]);
    want.extend_from_slice(&3usize.to_be_bytes());
    want.extend_from_slice("hé".as_bytes());
    want.extend_from_slice(&[0x11, 0x22, 0x33, 0x44]);
    assert_eq!(b, want);
}

#[test]
fn bytes_round_trip() {
    let d = sample();
    let b = d.to_bytes();
    assert_eq!(b.len(), 8 + 4 + 8 + 1 + std::mem::size_of::<usize>() + 22 + 4);
    let e = DataStuff::from_bytes(b);
    assert_eq!(f64::from_bits(e.val1), 234.24213);
    assert_eq!(f32::from_bits(e.val2), 0.001419);
    assert_eq!(e.val3, -9432235);
    assert_eq!(e.val4, 201);
    assert_eq!(e.text, "test message blah blah");
    assert_eq!(e.val5, 24323);
}

#[test]
fn from_bytes_ignores_trailing_bytes_and_reads_utf8() {
    let mut d = sample();
    d.text = String::from("ünïcødé ✓");
    let mut b = d.to_bytes();
    b.extend_from_slice(&[9, 9, 9]);
    let e = DataStuff::from_bytes(b);
    assert_eq!(e.text, "ünïcødé ✓");
    assert_eq!(e.val5, 24323);
}

#[test]
fn empty_text_round_trip() {
    let mut d = sample();
    d.text = String::new();
    let e = DataStuff::from_bytes(d.to_bytes());
    assert_eq!(e.text, "");
    assert_eq!(e.val3, -9432235);
}

#[test]
fn words_and_bytes_in_memory_order() {
    let w = vec![0x04030201u32, 0xddccbbaa];
    let b = vec32to8(&w);
    let native: Vec<u8> = w.iter().flat_map(|x| x.to_ne_bytes()).collect();
    assert_eq!(b, native);
    assert_eq!(vec8to32(&b), w);
    let odd = vec![1u8, 0, 0, 0, 2, 0, 0, 0, 9, 9];
    let want: Vec<u32> = vec![u32::from_ne_bytes([1, 0, 0, 0]), u32::from_ne_bytes([2, 0, 0, 0])];
    assert_eq!(vec8to32(&odd), want);
    assert_eq!(vec32to8(&vec8to32(&odd)), odd[..8].to_vec());
    assert!(vec8to32(&vec![1, 2, 3]).is_empty());
}

#[test]
fn words_and_bytes_in_either_order() {
    let w = vec![0x04030201u32, 0xddccbbaa];
    assert_eq!(bytes_from_words(&w, true), vec![1, 2, 3, 4, 0xaa, 0xbb, 0xcc, 0xdd]);
    assert_eq!(bytes_from_words(&w, false), vec![4, 3, 2, 1, 0xdd, 0xcc, 0xbb, 0xaa]);
    for little in [true, false] {
        assert_eq!(words_from_bytes(&bytes_from_words(&w, little), little), w);
    }
    assert_eq!(words_from_bytes(&vec![1, 0, 0, 0, 7], false), vec![0x01000000]);
}

#[test]
fn checked_decoding_refuses_what_holds_no_record() {
    let b = sample().to_bytes();
    assert!(DataStuff::from_bytes_checked(b.clone()).is_some());
    assert!(DataStuff::from_bytes_checked(b[..b.len() - 1].to_vec()).is_none());
    assert!(DataStuff::from_bytes_checked(vec![0; 10]).is_none());
    let mut bad = b.clone();
    bad[21 + std::mem::size_of::<usize>()] = 0xff;
    assert!(DataStuff::from_bytes_checked(bad).is_none());
    let mut long = b.clone();
    long[21] = 0x7f;
    assert!(DataStuff::from_bytes_checked(long).is_none());
}

#[test]
fn ramp_pattern_values() {
    let p = ramp_pattern(4);
    assert_eq!(p, vec![0, 0x100, 0x200, 0x300]);
    assert!(ramp_pattern(0).is_empty());
    let big = ramp_pattern(0x0100_0002);
    assert_eq!(big[0x0100_0001], 0x100);
}
