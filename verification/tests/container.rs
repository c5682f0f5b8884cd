use spg::params::Params;
use spg::puzzle::Puzzle;
use spg::raster::Raster;

fn puzzle_with(params: Params, data: Vec<u8>) -> Puzzle {
    let width = params.division.0 * params.division_size;
    let height = params.division.1 * params.division_size;
    let image = Raster::from_bytes(width, height, data).expect("buffer must match the grid");
    Puzzle::generate(&params, image).expect("dimensions match by construction")
}

/// A plain reader of the raw-RGB container: magic, whitespace and `#`
/// comment lines, three decimal fields, one whitespace byte, pixel data.
fn read_ppm(bytes: &[u8]) -> (u32, u32, u32, Vec<u8>) {
    assert_eq!(&bytes[0..2], b"P6");
    let mut i = 2usize;
    let mut fields: Vec<u32> = Vec::new();
    while fields.len() < 3 {
        match bytes[i] {
            b' ' | b'\n' | b'\r' | b'\t' => i += 1,
            b'#' => {
                while bytes[i] != b'\n' {
                    i += 1;
                }
                i += 1;
            }
            b'0'..=b'9' => {
                let mut value: u32 = 0;
                while i < bytes.len() && bytes[i].is_ascii_digit() {
                    value = value * 10 + u32::from(bytes[i] - b'0');
                    i += 1;
                }
                fields.push(value);
            }
            other => panic!("unexpected header byte {other}"),
        }
    }
    assert!(bytes[i].is_ascii_whitespace());
    i += 1;
    (fields[0], fields[1], fields[2], bytes[i..].to_vec())
}

#[test]
fn header_lines_as_written() {
    let params = Params {
        division_size: 16,
        division: (2, 1),
        select_limit: 7,
        select_rate: 3,
        swap_rate: 9,
    };
    let data: Vec<u8> = (0..(32 * 16 * 3)).map(|i| (i % 251) as u8).collect();
    let p = puzzle_with(params, data.clone());
    let out = p.decode();
    let text_end = out.len() - 32 * 16 * 3;
    let header = &out[..text_end];
    let lines: Vec<&[u8]> = header.split(|&b| b == b'\n').collect();
    assert_eq!(lines[0], b"P6");
    assert_eq!(lines[1], b"# 2 1");
    assert_eq!(lines[2], b"# 7");
    assert_eq!(lines[3], b"# 3 9");
    assert_eq!(lines[4], b"32 16");
    assert_eq!(lines[5], b"255");
    assert_eq!(lines[6], b"", "the header ends with a line feed");
    assert_eq!(&out[text_end..], &data[..]);
}

#[test]
fn multi_digit_fields_render_in_decimal() {
    let params = Params {
        division_size: 16,
        division: (2, 2),
        select_limit: 128,
        select_rate: 500,
        swap_rate: 100,
    };
    let p = puzzle_with(params, vec![1u8; 32 * 32 * 3]);
    let out = p.decode();
    let header: Vec<u8> = out[..out.len() - 32 * 32 * 3].to_vec();
    let lines: Vec<&[u8]> = header.split(|&b| b == b'\n').collect();
    assert_eq!(lines[1], b"# 2 2");
    assert_eq!(lines[2], b"# 128");
    assert_eq!(lines[3], b"# 500 100");
    assert_eq!(lines[4], b"32 32");
}

#[test]
fn container_reads_back_byte_identical() {
    let params = Params {
        division_size: 8,
        division: (3, 2),
        select_limit: 31,
        select_rate: 42,
        swap_rate: 250,
    };
    let data: Vec<u8> = (0..(24 * 16 * 3)).map(|i| (i * 17 % 256) as u8).collect();
    let p = puzzle_with(params, data.clone());
    let out = p.decode();
    let (w, h, maxval, pixels) = read_ppm(&out);
    assert_eq!((w, h, maxval), (24, 16, 255));
    assert_eq!(pixels, data);
}

#[test]
fn a_real_generic_decoder_reads_the_container() {
    let params = Params {
        division_size: 16,
        division: (2, 2),
        select_limit: 10,
        select_rate: 20,
        swap_rate: 30,
    };
    let data: Vec<u8> = (0..(32 * 32 * 3)).map(|i| (i * 31 % 253) as u8).collect();
    let p = puzzle_with(params, data.clone());
    let out = p.decode();
    let decoded = image::load_from_memory_with_format(&out, image::ImageFormat::Pnm)
        .expect("a conformant reader accepts the container")
        .to_rgb8();
    assert_eq!((decoded.width(), decoded.height()), (32, 32));
    assert_eq!(decoded.into_raw(), data);
}

#[test]
fn container_survives_a_shuffle() {
    let params = Params {
        division_size: 8,
        division: (2, 2),
        select_limit: 2,
        select_rate: 1,
        swap_rate: 1,
    };
    let data: Vec<u8> = (0..(16 * 16 * 3)).map(|i| (i % 256) as u8).collect();
    let mut p = puzzle_with(params, data);
    p.random_swap();
    p.random_rotate();
    let out = p.decode();
    let (w, h, _, pixels) = read_ppm(&out);
    assert_eq!((w, h), (16, 16));
    assert_eq!(pixels, p.image().as_bytes().clone());
}
