use calibration::stream::{assemble_stream, sort_pages, PageFile};
use calibration::types::WagerEvent;

fn event(id: &str, created_time: i64) -> WagerEvent {
    WagerEvent {
        id: String::from(id),
        question_id: String::from("q"),
        answer: None,
        prob_before: 5000,
        prob_after: 5000,
        created_time,
        is_redemption: false,
        is_ante: false,
        is_cancelled: false,
    }
}

fn page(name: &str, ids: &[(&str, i64)]) -> PageFile {
    PageFile {
        name: String::from(name),
        records: ids.iter().map(|(id, t)| event(id, *t)).collect(),
    }
}

fn ids(stream: &[WagerEvent]) -> Vec<String> {
    stream.iter().map(|e| e.id.clone()).collect()
}

#[test]
fn pages_sort_by_filename_ascending() {
    let pages = vec![page("c.json", &[]), page("a.json", &[]), page("b.json", &[])];
    let sorted = sort_pages(pages);
    let names: Vec<&str> = sorted.iter().map(|p| p.name.as_str()).collect();
    assert_eq!(names, vec!["a.json", "b.json", "c.json"]);
}

#[test]
fn historical_pages_are_visited_newest_filename_first() {
    // Filenames decrease with age, so the highest filename holds the
    // oldest records; records inside a regular page are newest-first.
    let newest_page = page("a.json", &[("e4", 40), ("e3", 30)]);
    let oldest_page = page("b.json", &[("e2", 20), ("e1", 10)]);
    let stream = assemble_stream(vec![newest_page, oldest_page], Vec::new());
    assert_eq!(ids(&stream), vec!["e1", "e2", "e3", "e4"]);
    let times: Vec<i64> = stream.iter().map(|e| e.created_time).collect();
    assert_eq!(times, vec![10, 20, 30, 40]);
}

#[test]
fn legacy_dump_marker_keeps_stored_order() {
    // A filename carrying the full-dump marker stores records
    // oldest-first already.
    let legacy = page("dump-0000.json", &[("e1", 10), ("e2", 20)]);
    let stream = assemble_stream(vec![legacy], Vec::new());
    assert_eq!(ids(&stream), vec!["e1", "e2"]);

    let regular = page("dump.json", &[("e2", 20), ("e1", 10)]);
    let stream2 = assemble_stream(vec![regular], Vec::new());
    assert_eq!(ids(&stream2), vec!["e1", "e2"]);
}

#[test]
fn recent_pages_follow_in_ascending_order_as_stored() {
    let historical = vec![page("h.json", &[("e2", 20), ("e1", 10)])];
    let recent = vec![
        page("r2.json", &[("e5", 50), ("e6", 60)]),
        page("r1.json", &[("e3", 30), ("e4", 40)]),
    ];
    let stream = assemble_stream(historical, recent);
    assert_eq!(ids(&stream), vec!["e1", "e2", "e3", "e4", "e5", "e6"]);
}

#[test]
fn empty_groups_give_an_empty_stream() {
    let stream = assemble_stream(Vec::new(), Vec::new());
    assert!(stream.is_empty());
}
