use wsl_tray::glyph::maker::{canvas, make_mask, GlyphError};
use wsl_tray::double::Double;
use wsl_tray::icon::{draw_icon, to_rgba, Level};
use wsl_tray::png::{adler32, crc32, encode_png};
use wsl_tray::resample::resample;
use wsl_tray::settings::Settings;
use wsl_tray::status::Status;
use wsl_tray::tux::{tux, write_mask, Mask};

/// A thick ring around a hollow middle, as the glyph maker stores it.
fn ring_file() -> Vec<u8> {
    let (w, h) = (40usize, 48usize);
    let mut full = vec![0u8; w * h];
    for y in 8..40 {
        for x in 8..32 {
            if y < 12 || y >= 36 || x < 12 || x >= 28 {
                full[y * w + x] = 255;
            }
        }
    }
    write_mask(&make_mask(&full, w, h).unwrap())
}

fn ring() -> Mask {
    tux(&ring_file()).unwrap()
}

/// A floating-point number as the library holds it.
fn double(x: f64) -> Double {
    let bits = x.to_bits();
    let (e, m) = ((bits >> 52) as i32, bits & 0xF_FFFF_FFFF_FFFF);
    if e == 0 {
        Double { m, e: -1074 }
    } else {
        Double { m: m | 1 << 52, e: e - 1075 }
    }
}

#[test]
fn mask_loads() {
    let m = ring();
    assert!(m.w > 0 && m.h > 0);
    assert!(m.cov.contains(&255));
    assert!(m.holes.contains(&255));
}

#[test]
fn mask_file_has_exact_layout() {
    // The ring of 24 x 32 pixels grows by 3 on every side.
    let data = ring_file();
    assert_eq!(&data[..4], &[30, 0, 38, 0]);
    assert_eq!(data.len(), 4 + 2 * 30 * 38);
    let m = ring();
    assert_eq!((m.w, m.h), (30, 38));
    assert_eq!(write_mask(&m), data);
    // The corner is rounded off, the hollow middle stays hollow.
    assert_eq!(m.cov[0], 0);
    assert_eq!(m.cov[19 * 30 + 15], 0);
    assert_eq!(m.holes[19 * 30 + 15], 255);
    assert_eq!(m.holes[0], 0);
}

#[test]
fn malformed_masks_are_refused() {
    let data = ring_file();
    assert!(tux(&data[..data.len() - 1]).is_none());
    assert!(tux(&[]).is_none());
    assert!(tux(&[1, 0, 1]).is_none());
    let mut longer = data.clone();
    longer.push(0);
    assert!(tux(&longer).is_none());
}

#[test]
fn blank_canvas_gives_no_mask() {
    assert!(matches!(make_mask(&[0u8; 12], 4, 3), Err(GlyphError::Empty)));
    let wide = vec![255u8; 70_000];
    assert!(matches!(make_mask(&wide, 70_000, 1), Err(GlyphError::TooLarge)));
}

#[test]
fn canvas_follows_view_box() {
    assert_eq!(canvas(), (128, 144));
}

#[test]
fn level_thresholds() {
    let st = |cpu: f64, mem: f64| Status {
        running: true,
        cpu: Some(double(cpu)),
        mem_pct: double(mem),
        ..Default::default()
    };
    assert_eq!(Level::for_status(&Status::default()), Level::Off);
    assert_eq!(Level::for_status(&st(10.0, 10.0)), Level::Normal);
    assert_eq!(Level::for_status(&st(49.9, 0.0)), Level::Normal);
    assert_eq!(Level::for_status(&st(50.0, 0.0)), Level::Warn);
    assert_eq!(Level::for_status(&st(0.0, 75.0)), Level::Warn);
    assert_eq!(Level::for_status(&st(0.0, 75.1)), Level::High);
    assert_eq!(
        Level::for_status(&Status {
            running: true,
            cpu: None,
            mem_pct: double(80.0),
            ..Default::default()
        }),
        Level::High
    );
}

#[test]
fn levels_follow_chosen_thresholds() {
    let s = Settings { warn: 30, high: 30 };
    let st = |mem: f64| Status {
        running: true,
        mem_pct: double(mem),
        ..Default::default()
    };
    assert_eq!(Level::for_settings(&st(29.9), &s), Level::Normal);
    assert_eq!(Level::for_settings(&st(30.0), &s), Level::Warn);
    assert_eq!(Level::for_settings(&st(30.1), &s), Level::High);
    assert_eq!(Level::for_settings(&Status::default(), &s), Level::Off);
}

#[test]
fn resample_preserves_flat_regions() {
    let src = vec![200u8; 16 * 16];
    let dst = resample(&src, 16, 16, 5, 7);
    assert!(dst.iter().all(|&v| v == 200));
}

#[test]
fn resample_averages_areas() {
    assert_eq!(resample(&[0, 100, 200, 60], 2, 2, 1, 1), vec![90]);
    assert_eq!(resample(&[10, 20, 30], 3, 1, 3, 1), vec![10, 20, 30]);
    // Two cells over three: 10 and half of 20, half of 20 and 30.
    assert_eq!(resample(&[10, 20, 30], 3, 1, 2, 1), vec![13, 27]);
}

#[test]
fn draw_has_pixels_in_every_state() {
    let m = ring();
    for lv in [Level::Off, Level::Normal, Level::Warn, Level::High] {
        let mut pix = vec![0u8; 24 * 24 * 4];
        draw_icon(&mut pix, 24, lv, &m);
        assert!(
            pix.chunks(4).any(|p| p[3] == 255),
            "{lv:?} has no opaque pixel"
        );
    }
}

#[test]
fn icon_is_coloured_by_level() {
    // A mask of one solid pixel fills the icon with the level's colour.
    let m = Mask { w: 1, h: 1, cov: vec![255], holes: vec![0] };
    let mut pix = vec![7u8; 2 * 2 * 4];
    draw_icon(&mut pix, 2, Level::Warn, &m);
    for p in pix.chunks(4) {
        assert_eq!(p, &[0, 149, 255, 255]);
    }
    assert_eq!(Level::Off.rgb(), [150, 150, 150]);
    assert_eq!(Level::Normal.rgb(), [52, 199, 89]);
    assert_eq!(Level::High.rgb(), [255, 59, 48]);
    assert_eq!(&to_rgba(2, &pix)[..4], &[255, 149, 0, 255]);
}

#[test]
fn holes_are_painted_translucent() {
    let m = Mask { w: 1, h: 1, cov: vec![0], holes: vec![255] };
    let mut pix = vec![0u8; 4];
    draw_icon(&mut pix, 1, Level::Off, &m);
    assert_eq!(pix, vec![64, 64, 64, 110]);
}

#[test]
fn narrow_glyph_is_centred() {
    // One column of a square of four: the glyph is one pixel wide in the middle.
    let m = Mask { w: 1, h: 4, cov: vec![255; 4], holes: vec![0; 4] };
    let mut pix = vec![0u8; 4 * 4 * 4];
    draw_icon(&mut pix, 4, Level::High, &m);
    let alpha: Vec<u8> = pix.chunks(4).map(|p| p[3]).collect();
    assert_eq!(
        alpha,
        vec![0, 255, 0, 0, 0, 255, 0, 0, 0, 255, 0, 0, 0, 255, 0, 0]
    );
}

#[test]
fn png_roundtrip_header() {
    let png = encode_png(2, 2, &[255; 16]);
    assert_eq!(
        &png[..8],
        &[0x89, b'P', b'N', b'G', b'\r', b'\n', 0x1a, b'\n']
    );
    assert_eq!(crc32(b"123456789"), 0xCBF4_3926);
    assert_eq!(adler32(b"Wikipedia"), 0x11E6_0398);
}

#[test]
fn png_is_exact_for_one_pixel() {
    let png = encode_png(1, 1, &[1, 2, 3, 4]);
    let ihdr: &[u8] = &[0, 0, 0, 13, b'I', b'H', b'D', b'R', 0, 0, 0, 1, 0, 0, 0, 1, 8, 6, 0, 0, 0];
    assert_eq!(&png[8..29], ihdr);
    assert_eq!(&png[29..33], &crc32(&png[12..29]).to_be_bytes());
    // zlib header, one stored block of five bytes, the rows, the checksum.
    let data: &[u8] = &[0x78, 0x01, 1, 5, 0, 0xFA, 0xFF, 0, 1, 2, 3, 4];
    assert_eq!(&png[41..53], data);
    assert_eq!(&png[53..57], &adler32(&[0, 1, 2, 3, 4]).to_be_bytes());
    assert_eq!(&png[png.len() - 8..png.len() - 4], b"IEND");
}

#[test]
fn colours_never_exceed_alpha() {
    let m = ring();
    let mut pix = vec![0u8; 20 * 20 * 4];
    draw_icon(&mut pix, 20, Level::High, &m);
    for p in pix.chunks(4) {
        assert!(p[0] <= p[3] && p[1] <= p[3] && p[2] <= p[3]);
    }
}

/// A picture whose rows take more than one stored block.
#[test]
fn large_pictures_decode() {
    let (w, h) = (200usize, 100usize);
    let rgba: Vec<u8> = (0..4 * w * h).map(|i| (i * 7 % 253) as u8).collect();
    let png = encode_png(w, h, &rgba);
    // Chunks.
    let mut data: Vec<u8> = Vec::new();
    let mut at = 8;
    let mut names: Vec<String> = Vec::new();
    while at < png.len() {
        let n = u32::from_be_bytes([png[at], png[at + 1], png[at + 2], png[at + 3]]) as usize;
        let body = &png[at + 4..at + 8 + n];
        assert_eq!(crc32(body).to_be_bytes(), png[at + 8 + n..at + 12 + n]);
        names.push(String::from_utf8(body[..4].to_vec()).unwrap());
        if &body[..4] == b"IDAT" {
            data = body[4..].to_vec();
        }
        at += 12 + n;
    }
    assert_eq!(names, vec!["IHDR", "IDAT", "IEND"]);
    assert_eq!(png[16..24], [0, 0, 0, 200, 0, 0, 0, 100]);
    // Stored blocks.
    let mut rows: Vec<u8> = Vec::new();
    let mut at = 2;
    let mut blocks = 0;
    loop {
        let last = data[at] == 1;
        let n = u16::from_le_bytes([data[at + 1], data[at + 2]]);
        let complement = u16::from_le_bytes([data[at + 3], data[at + 4]]);
        assert_eq!(n, !complement);
        rows.extend_from_slice(&data[at + 5..at + 5 + n as usize]);
        at += 5 + n as usize;
        blocks += 1;
        if last {
            break;
        }
    }
    assert!(blocks > 1);
    assert_eq!(adler32(&rows).to_be_bytes(), data[at..]);
    // Rows: filter byte 0, then the pixels.
    let mut back: Vec<u8> = Vec::new();
    for row in rows.chunks(1 + 4 * w) {
        assert_eq!(row[0], 0);
        back.extend_from_slice(&row[1..]);
    }
    assert_eq!(back, rgba);
}

/// Pictures reduced by whole numbers hold the averages of their blocks.
#[test]
fn blocks_hold_their_average() {
    let (k, l, dw, dh) = (3usize, 2usize, 4usize, 5usize);
    let src: Vec<u8> = (0..k * dw * l * dh).map(|i| (i * i * 31 % 256) as u8).collect();
    let dst = resample(&src, k * dw, l * dh, dw, dh);
    for y in 0..dh {
        for x in 0..dw {
            let total: usize = (0..k * l)
                .map(|i| src[(y * l + i / k) * k * dw + x * k + i % k] as usize)
                .sum();
            assert_eq!(dst[y * dw + x] as usize, (2 * total + k * l) / (2 * k * l));
        }
    }
    assert_eq!(resample(&src, 12, 10, 12, 10), src, "the same size keeps the picture");
}

#[test]
fn averages_stay_in_range() {
    let src: Vec<u8> = (0..19 * 23).map(|i| (40 + i * 37 % 60) as u8).collect();
    for (dw, dh) in [(1, 1), (7, 5), (18, 22), (19, 23), (40, 50)] {
        let dst = resample(&src, 19, 23, dw, dh);
        assert!(dst.iter().all(|v| (40..100).contains(v)));
        for flat in [0u8, 1, 127, 255] {
            assert_eq!(resample(&vec![flat; 19 * 23], 19, 23, dw, dh), vec![flat; dw * dh]);
        }
    }
}
