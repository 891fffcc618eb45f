use progress::codec::{label_fits, BlockKind, DecodeError};
use progress::ds::Store;

fn store_with(tasks: Vec<progress::ds::Task>, last_task_id: u32) -> Store {
    let mut st = Store::new();
    st.metadata.last_task_id = last_task_id;
    st.tasks = tasks;
    st
}

fn task(
    id: u32,
    done: bool,
    label: &str,
    date_created: i64,
    date_checked: Option<i64>,
) -> progress::ds::Task {
    progress::ds::Task { id, done, label: label.to_string(), date_created, date_checked }
}

#[test]
fn encode_empty_store() {
    let st = Store::new();
    assert_eq!(st.encode(), ":metadata\n0\n:end\n");
}

#[test]
fn encode_one_task_exact_text() {
    let st = store_with(vec![task(3, true, "write report", 1700000000, Some(1700003600))], 4);
    assert_eq!(
        st.encode(),
        ":metadata\n4\n:end\n:task\n3\n[x]\nwrite report\n1700000000\n1700003600\n:end\n"
    );
}

#[test]
fn encode_not_done_task_uses_dash_and_open_marker() {
    let st = store_with(vec![task(0, false, "x", -5, None)], 1);
    assert_eq!(st.encode(), ":metadata\n1\n:end\n:task\n0\n[]\nx\n-5\n-\n:end\n");
}

#[test]
fn decode_empty_text_gives_empty_store() {
    let st = Store::decode("").unwrap();
    assert_eq!(st.metadata.last_task_id, 0);
    assert_eq!(st.tasks.len(), 0);
}

#[test]
fn round_trip_mixed_store() {
    let st = store_with(
        vec![
            task(0, false, "buy milk", 1700000000, None),
            task(1, true, "", -86401, Some(1700000001)),
            task(7, false, "label with spaces  ", 0, None),
        ],
        8,
    );
    let text = st.encode();
    let back = Store::decode(&text).unwrap();
    assert_eq!(back.metadata.last_task_id, 8);
    assert_eq!(back.tasks.len(), 3);
    for (a, b) in st.tasks.iter().zip(back.tasks.iter()) {
        assert_eq!(a.id, b.id);
        assert_eq!(a.done, b.done);
        assert_eq!(a.label, b.label);
        assert_eq!(a.date_created, b.date_created);
        assert_eq!(a.date_checked, b.date_checked);
    }
}

#[test]
fn decode_skips_blank_lines_and_stray_text_between_blocks() {
    let text = "\nnote to self\n:metadata\n5\n:end\n\nstray\n:task\n2\n[]\na\n10\n-\n:end\n\n";
    let st = Store::decode(text).unwrap();
    assert_eq!(st.metadata.last_task_id, 5);
    assert_eq!(st.tasks.len(), 1);
    assert_eq!(st.tasks[0].id, 2);
}

#[test]
fn decode_end_while_idle_is_a_no_op() {
    let st = Store::decode(":end\n:metadata\n1\n:end\n").unwrap();
    assert_eq!(st.metadata.last_task_id, 1);
}

#[test]
fn decode_rejects_non_numeric_created_at() {
    let text = ":task\n0\n[]\nlabel\nnot-a-number\n-\n:end\n";
    match Store::decode(text) {
        Err(e) => assert_eq!(e, DecodeError::InvalidField { block: BlockKind::Task, field: 3 }),
        Ok(_) => panic!("malformed created_at must fail decode"),
    }
}

#[test]
fn decode_rejects_non_numeric_id() {
    match Store::decode(":task\nTSK-1\n[]\na\n0\n-\n:end\n") {
        Err(e) => assert_eq!(e, DecodeError::InvalidField { block: BlockKind::Task, field: 0 }),
        Ok(_) => panic!("malformed id must fail decode"),
    }
}

#[test]
fn decode_rejects_bad_completion_marker() {
    match Store::decode(":task\n1\n[done]\na\n0\n-\n:end\n") {
        Err(e) => assert_eq!(e, DecodeError::InvalidField { block: BlockKind::Task, field: 1 }),
        Ok(_) => panic!("bad marker must fail decode"),
    }
}

#[test]
fn decode_rejects_bad_checked_field() {
    match Store::decode(":task\n1\n[]\na\n0\nlater\n:end\n") {
        Err(e) => assert_eq!(e, DecodeError::InvalidField { block: BlockKind::Task, field: 4 }),
        Ok(_) => panic!("bad checked_at must fail decode"),
    }
}

#[test]
fn decode_rejects_metadata_counter_beyond_u32() {
    match Store::decode(":metadata\n4294967296\n:end\n") {
        Err(e) => {
            assert_eq!(e, DecodeError::InvalidField { block: BlockKind::Metadata, field: 0 })
        }
        Ok(_) => panic!("counter beyond u32 must fail decode"),
    }
}

#[test]
fn decode_accepts_metadata_counter_at_u32_max() {
    let st = Store::decode(":metadata\n4294967295\n:end\n").unwrap();
    assert_eq!(st.metadata.last_task_id, u32::MAX);
}

#[test]
fn decode_rejects_premature_end_of_metadata() {
    match Store::decode(":metadata\n:end\n") {
        Err(e) => {
            assert_eq!(e, DecodeError::PrematureEnd { block: BlockKind::Metadata, have: 0 })
        }
        Ok(_) => panic!("metadata without its field must fail decode"),
    }
}

#[test]
fn decode_rejects_premature_end_of_task() {
    match Store::decode(":task\n1\n[]\nlabel\n:end\n") {
        Err(e) => assert_eq!(e, DecodeError::PrematureEnd { block: BlockKind::Task, have: 3 }),
        Ok(_) => panic!("task with missing fields must fail decode"),
    }
}

#[test]
fn decode_rejects_tag_inside_open_block() {
    match Store::decode(":task\n1\n:task\n") {
        Err(e) => assert_eq!(e, DecodeError::NestedTag { block: BlockKind::Task }),
        Ok(_) => panic!("a tag inside an open block must fail decode"),
    }
}

#[test]
fn decode_rejects_extra_metadata_field() {
    match Store::decode(":metadata\n1\n2\n:end\n") {
        Err(e) => assert_eq!(e, DecodeError::ExtraField { block: BlockKind::Metadata }),
        Ok(_) => panic!("a second metadata field must fail decode"),
    }
}

#[test]
fn decode_rejects_marker_disagreeing_with_checked_time() {
    match Store::decode(":task\n1\n[x]\na\n0\n-\n:end\n") {
        Err(e) => assert_eq!(e, DecodeError::MismatchedCheck),
        Ok(_) => panic!("a done task without a checked time must fail decode"),
    }
    match Store::decode(":task\n1\n[]\na\n0\n99\n:end\n") {
        Err(e) => assert_eq!(e, DecodeError::MismatchedCheck),
        Ok(_) => panic!("a not-done task with a checked time must fail decode"),
    }
}

#[test]
fn decode_rejects_unterminated_block() {
    match Store::decode(":task\n1\n[]\na\n0\n-") {
        Err(e) => assert_eq!(e, DecodeError::UnterminatedBlock { block: BlockKind::Task }),
        Ok(_) => panic!("an unterminated block must fail decode"),
    }
    match Store::decode(":metadata\n7") {
        Err(e) => {
            assert_eq!(e, DecodeError::UnterminatedBlock { block: BlockKind::Metadata })
        }
        Ok(_) => panic!("an unterminated block must fail decode"),
    }
    // With a trailing newline the text ends in an empty line, which is an
    // extra field of the still-open block.
    match Store::decode(":task\n1\n[]\na\n0\n-\n") {
        Err(e) => assert_eq!(e, DecodeError::ExtraField { block: BlockKind::Task }),
        Ok(_) => panic!("a field line past the block's last field must fail decode"),
    }
}

#[test]
fn decode_accepts_negative_timestamps() {
    let st = Store::decode(":task\n1\n[]\nold\n-86401\n-\n:end\n").unwrap();
    assert_eq!(st.tasks[0].date_created, -86401);
}

#[test]
fn decode_accepts_extreme_timestamps() {
    let text = ":task\n1\n[x]\nedge\n-9223372036854775808\n9223372036854775807\n:end\n";
    let st = Store::decode(text).unwrap();
    assert_eq!(st.tasks[0].date_created, i64::MIN);
    assert_eq!(st.tasks[0].date_checked, Some(i64::MAX));
    let back = Store::decode(&st.encode()).unwrap();
    assert_eq!(back.tasks[0].date_created, i64::MIN);
    assert_eq!(back.tasks[0].date_checked, Some(i64::MAX));
}

#[test]
fn decode_rejects_timestamp_beyond_i64() {
    match Store::decode(":task\n1\n[]\na\n9223372036854775808\n-\n:end\n") {
        Err(e) => assert_eq!(e, DecodeError::InvalidField { block: BlockKind::Task, field: 3 }),
        Ok(_) => panic!("created_at beyond i64 must fail decode"),
    }
}

#[test]
fn decode_takes_label_line_verbatim() {
    let st = Store::decode(":task\n1\n[]\n  spaced  \n0\n-\n:end\n").unwrap();
    assert_eq!(st.tasks[0].label, "  spaced  ");
}

#[test]
fn label_fits_rejects_delimiters_and_newlines() {
    assert!(!label_fits(":metadata"));
    assert!(!label_fits(":task"));
    assert!(!label_fits(":end"));
    assert!(!label_fits("two\nlines"));
    assert!(label_fits("buy milk"));
    assert!(label_fits(""));
    assert!(label_fits(":ending soon"));
}
