use diropqlz::diropql::machine::{read_diropql, MEMORY_SIZE};
use diropqlz::diropql::zip::write_diropql;

#[test]
fn machine_prints_what_the_program_was_written_for() {
    let program = write_diropql(b"AB");
    assert_eq!(read_diropql(&program, 1000), Some(b"AB".to_vec()));
}

#[test]
fn machine_runs_a_loop_until_the_cell_is_zero() {
    assert_eq!(read_diropql(b"iiipdoq", 1000), Some(vec![2, 1, 0]));
}

#[test]
fn machine_skips_a_loop_on_a_zero_cell() {
    assert_eq!(read_diropql(b"pioqo", 1000), Some(vec![0]));
    assert_eq!(read_diropql(b"ppqqo", 1000), Some(vec![0]));
}

#[test]
fn machine_wraps_cells_and_pointer() {
    assert_eq!(read_diropql(b"do", 10), Some(vec![255]));
    assert_eq!(read_diropql(b"dio", 10), Some(vec![0]));
    assert_eq!(read_diropql(b"lioro", 10), Some(vec![1, 0]));
    let mut around = vec![b'i'];
    around.extend(std::iter::repeat(b'r').take(MEMORY_SIZE));
    around.push(b'o');
    assert_eq!(read_diropql(&around, 20_000), Some(vec![1]));
}

#[test]
fn machine_ignores_other_bytes() {
    assert_eq!(read_diropql(b"i x\no", 10), Some(vec![1]));
}

#[test]
fn machine_stops_on_a_missing_bracket() {
    assert_eq!(read_diropql(b"pio", 1000), None);
    assert_eq!(read_diropql(b"iq", 1000), None);
}

#[test]
fn machine_stops_when_the_steps_are_spent() {
    assert_eq!(read_diropql(b"ipq", 1000), None);
    assert_eq!(read_diropql(b"io", 1), None);
    assert_eq!(read_diropql(b"io", 2), Some(vec![1]));
    assert_eq!(read_diropql(b"", 0), Some(vec![]));
}

#[test]
fn machine_prints_every_text_shorter_than_the_tape() {
    let text: Vec<u8> = (0..MEMORY_SIZE - 1).map(|i| (i % 256) as u8).collect();
    let program = write_diropql(&text);
    assert_eq!(read_diropql(&program, program.len()), Some(text));
}

#[test]
fn machine_meets_used_cells_once_the_tape_has_gone_round() {
    let text = vec![1u8; MEMORY_SIZE + 1];
    let program = write_diropql(&text);
    let printed = read_diropql(&program, program.len()).unwrap();
    assert_eq!(printed.len(), text.len());
    assert_eq!(printed[MEMORY_SIZE - 1], 1);
    assert_eq!(printed[MEMORY_SIZE], 2);
}
