//! Exercises every decoder on pseudo-random and mutated byte buffers: no
//! call may panic, read out of bounds, or fail to terminate. The result
//! values themselves do not matter here.

use x509_der::der::{
    bit_string_with_no_unused_bits, optional_boolean, positive_integer, read_tag_and_get_value,
    small_nonnegative_integer,
};
use x509_der::name::{parse_alt_name, parse_directory_string, parse_name};
use x509_der::oid::parse_oid;
use x509_der::reader::Reader;
use x509_der::time::time_choice;

struct Lcg(u64);

impl Lcg {
    fn next_byte(&mut self) -> u8 {
        self.0 = self
            .0
            .wrapping_mul(6364136223846793005)
            .wrapping_add(1442695040888963407);
        (self.0 >> 33) as u8
    }
}

fn run_all_decoders(buf: &[u8]) {
    let _ = read_tag_and_get_value(&mut Reader::new(buf));
    let _ = optional_boolean(&mut Reader::new(buf));
    let _ = positive_integer(&mut Reader::new(buf));
    let _ = small_nonnegative_integer(&mut Reader::new(buf));
    let _ = bit_string_with_no_unused_bits(&mut Reader::new(buf));
    let _ = time_choice(&mut Reader::new(buf));
    let _ = parse_oid(&mut Reader::new(buf));
    let _ = parse_directory_string(&mut Reader::new(buf));
    let _ = parse_name(&mut Reader::new(buf));
    let _ = parse_alt_name(&mut Reader::new(buf));
}

#[test]
fn random_buffers_never_panic() {
    let mut rng = Lcg(0x5eed);
    for len in 0..48usize {
        for _ in 0..16 {
            let buf: Vec<u8> = (0..len).map(|_| rng.next_byte()).collect();
            run_all_decoders(&buf);
        }
    }
}

#[test]
fn truncations_and_flips_of_valid_encodings_never_panic() {
    let samples: Vec<Vec<u8>> = vec![
        vec![0x01, 0x01, 0xff],
        vec![0x02, 0x02, 0x00, 0x85],
        vec![0x03, 0x03, 0x00, 0xaa, 0xbb],
        {
            let mut v = vec![0x06, 0x09];
            v.extend([0x2a, 0x86, 0x48, 0x86, 0xf7, 0x0d, 0x01, 0x01, 0x0b]);
            v
        },
        {
            let mut v = vec![0x17, 0x0d];
            v.extend(*b"991231235959Z");
            v
        },
        {
            let mut v = vec![0x31, 0x14, 0x30, 0x12, 0x06, 0x03, 0x55, 0x04, 0x03];
            v.extend(vec![0x13, 0x0b]);
            v.extend(*b"example.com");
            v
        },
    ];
    for sample in &samples {
        for cut in 0..=sample.len() {
            run_all_decoders(&sample[..cut]);
        }
        for i in 0..sample.len() {
            for flip in [0x01u8, 0x80, 0xff] {
                let mut mutated = sample.clone();
                mutated[i] ^= flip;
                run_all_decoders(&mutated);
            }
        }
    }
}

#[test]
fn oversized_length_declarations_never_read_out_of_bounds() {
    for tag in [0x02u8, 0x03, 0x06, 0x13, 0x17, 0x30, 0x31] {
        run_all_decoders(&[tag, 0x7f]);
        run_all_decoders(&[tag, 0x81, 0xff]);
        run_all_decoders(&[tag, 0x82, 0xff, 0xff, 0x00]);
    }
}
