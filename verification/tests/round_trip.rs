use ef80escape::bytes_to_str;
use ef80escape::str_to_bytes;

fn check_round_trip(data: &[u8]) {
    let s = bytes_to_str(data);
    let d = str_to_bytes(&s);
    assert_eq!(data, d.as_slice(), "str: {:?}", s);
}

#[test]
fn round_trip1() {
    check_round_trip(b"");
    check_round_trip(b"abcd  efg");
    check_round_trip("🤦🏼‍♂️".as_bytes());
    check_round_trip("[字符 编码]".as_bytes());
    check_round_trip(b"\xffa\xfe\xfdb\xfc");
    check_round_trip(b"\0\x01\x02\xe0\xe9de\0");
    check_round_trip("\u{ef00}a\u{ef00}\u{ef00}88".as_bytes());
    check_round_trip("\u{ef00}\u{efff}\u{ef00}\u{ef80}\u{ef81}".as_bytes());
    check_round_trip(b"\xbd\xe1tIR\xca\x13[\xd6\xc8H\xbd\xec\xf1wzsl[\xcf\x8b<\xf2U\xd4o\xf8\x8d\xdc\xb1\x86\x83\xe1AQ\xd2\xad\xb1\x00b?sX\x94W\xee0\xc9\x9e)\x97\x1aj\x9e\xb4\x925b_\xcf\x7f\xce\'\xf9\xee\xad\x8c8\xe2e\xa4\xed\x04\x8c\xdcAM\xee\x144\xddS\x03\x9c\x82m\xef,\xb6\xac\x14^Y\x064\xcc!\xd7\xa3\xed\xa7v^\x08i\xd6\xc0O\x0e\xd5\x8e~\x9a\xf8\xba\xb6w\xad7\x16\xa9\xfc\xa2G\xfe\x93ry\\=j\xe17X\x1d\xa1\xdb\x1b-\x8c\x93\x1a\x81%M\xa8E\xad\x079\xb3\xa3f\xf6]\xaek\x0f{\xfc\x88\xbc\x9b\x9a\xb5JtN\r\xdf\xc7\x16A/\xbe7\xb2\x1a\x1fD\xda\xba\x13\"\x1bLU\xb7\x9f\x1d\xe4\xda\xfe\xaaf~\xf9h\xf16\x9c\xada\xdf\x9c\xf0pH\xb1\x06\x93|\x9ep\xcdpz\xbe\x02\xaa\xa1\x87\xe1\x11?g\x84J1\x16}\xe0\x88\x08\xd0\xd6\x03\xeb\x1eNq\t\x08\xa3h\xd3\xca0\xdd\x16\xd6J\xa0~\x96\x11\xeb0\x05\xdc4\xdd\xf3\x0bL\xf5\x00M\xa8\xfc\x06F\xeb\x9el$\x02r\x8cF\x7f\x08y\xf5\xe7\xae\xc2!\x8a^\xf7\x1dd\xe9\xeflvw0\xd2B\x9f\xff\xf6\x92\xfd\x11CH\xc2\xa5\xfa\'S\xda1h+\x08\xbd\xca}\x87\x8cl\xe9%\xe7W`\xb83\x82\xd3n\x98\x91\x94\x02\xe6]\xe6\xe0\xb9*kg\xd50\x8f_\x8cO\x85f\xd4+\x8f\xb0\x97\xec*\xfa[\xc6\xea\x1e\x91\xfb\xbe\xf5u\x0e\x0eK\x11\x9f-1\x16\xc3\x83\xae\xffu\xd6b\xdc\x0f\xc6\x9b\xfc\xae\x7fL\tI\x1d\x85\xbe");
}

#[test]
fn round_trip2() {
    for b1 in 0..=255u8 {
        for b2 in 0..=255u8 {
            for b3 in 0..=5u8 {
                check_round_trip(&[b1, b2, b3]);
            }
        }
    }
}

#[test]
fn round_trip3() {
    let interesting_bytes: [u8; 4] = [0, 0x80, 0xbe, 0xee];
    for &b1 in &interesting_bytes {
        for &b2 in &interesting_bytes {
            for &b3 in &interesting_bytes {
                for &b4 in &interesting_bytes {
                    for &b5 in &interesting_bytes {
                        for &b6 in &interesting_bytes {
                            let data = [b1, b2, b3, b4, b5, b6];
                            check_round_trip(&data);
                        }
                    }
                }
            }
        }
    }
}

#[test]
fn zero_copy() {
    let s = "123 汉字 🤦🏼‍♂️";
    let b = str_to_bytes(s.as_bytes());
    assert_eq!(b.as_slice(), s.as_bytes());
    let t = bytes_to_str(&b);
    assert_eq!(t.as_slice(), s.as_bytes());
}
