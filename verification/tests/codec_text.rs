use fontpad::codec::decode;
use fontpad::codec::encode;
use fontpad::codec::DecodeError;
use fontpad::grid::Grid;

fn grid_with(width: usize, height: usize, on: &[usize]) -> Grid {
    let mut cells = vec![false; width * height];
    for &i in on {
        cells[i] = true;
    }
    Grid::from_parts(width, height, cells).expect("valid grid")
}

#[test]
fn encode_center_toggle_gives_five_comma_terminated_lines() {
    let mut g = Grid::new();
    assert_eq!(g.toggle(12), Ok(()));
    let text = encode(&g);
    let expected = "false,false,false,false,false,\n\
                    false,false,false,false,false,\n\
                    false,false,true,false,false,\n\
                    false,false,false,false,false,\n\
                    false,false,false,false,false,";
    assert_eq!(text, expected.as_bytes().to_vec());
    let lines: Vec<&str> = expected.split('\n').collect();
    assert_eq!(lines.len(), 5);
    assert!(lines.iter().all(|l| l.ends_with(',') && l.split(',').count() == 6));
}

#[test]
fn decode_reads_an_encoding_back_exactly() {
    let mut g = grid_with(6, 4, &[0, 5, 7, 13, 22, 23]);
    let text = encode(&g);
    let mut fresh = grid_with(6, 4, &[2]);
    assert_eq!(decode(&mut fresh, &text), Ok(()));
    assert_eq!(fresh.cells_snapshot(), g.cells_snapshot());
}

#[test]
fn decode_accepts_whitespace_and_a_trailing_comma() {
    let mut g = Grid::from_parts(4, 4, vec![false; 16]).unwrap();
    let mut text = String::new();
    for i in 0..16 {
        text.push_str(if i == 3 { " true " } else { "false" });
        text.push(',');
    }
    let padded = format!("  {}  ", text);
    assert_eq!(decode(&mut g, padded.as_bytes()), Ok(()));
    assert!(g.get(3));
    assert!(!g.get(0));
}

#[test]
fn decode_wrong_token_count_reports_both_counts_and_keeps_the_grid() {
    let mut g = grid_with(5, 5, &[7]);
    let text = vec!["true"; 24].join(",");
    let r = decode(&mut g, text.as_bytes());
    assert_eq!(r, Err(DecodeError::LengthMismatch { expected: 25, found: 24 }));
    assert!(g.get(7));
    assert_eq!(g.cells().iter().filter(|&&b| b).count(), 1);
}

#[test]
fn decode_invalid_token_reports_and_keeps_the_grid() {
    let mut g = grid_with(5, 5, &[7]);
    let mut tokens = vec!["true"; 25];
    tokens[3] = "TRU";
    let text = tokens.join(",");
    let r = decode(&mut g, text.as_bytes());
    assert_eq!(r, Err(DecodeError::InvalidToken));
    assert!(g.get(7));
    assert_eq!(g.cells().iter().filter(|&&b| b).count(), 1);
}

#[test]
fn decode_rejects_empty_tokens() {
    let mut g = Grid::from_parts(4, 4, vec![false; 16]).unwrap();
    let mut tokens = vec!["true"; 16];
    tokens[5] = "";
    let text = tokens.join(",");
    assert_eq!(decode(&mut g, text.as_bytes()), Err(DecodeError::InvalidToken));
}

#[test]
fn round_trip_preserves_every_grid_tried() {
    for (w, h) in [(4, 4), (5, 7), (24, 4), (6, 6)] {
        let mut cells = vec![false; w * h];
        for i in 0..cells.len() {
            cells[i] = i % 3 == 0 || i % 7 == 2;
        }
        let g = Grid::from_parts(w, h, cells).unwrap();
        let mut back = Grid::from_parts(w, h, vec![true; w * h]).unwrap();
        assert_eq!(decode(&mut back, &encode(&g)), Ok(()));
        assert_eq!(back.cells_snapshot(), g.cells_snapshot());
    }
}

#[test]
fn encode_fill_uses_true_tokens() {
    let mut g = Grid::from_parts(4, 4, vec![false; 16]).unwrap();
    g.fill();
    let text = encode(&g);
    let expected = "true,true,true,true,\ntrue,true,true,true,\ntrue,true,true,true,\ntrue,true,true,true,";
    assert_eq!(text, expected.as_bytes().to_vec());
}
