use rs_face::detector::{is_key_frame, key_frame_picks};
use rs_face::faces::{parse_list_header, ListError};
use rs_face::report::sample_indices;
use rs_face::saver::palette_color;
use rs_face::tracker::{parse_box_list, parse_i32_str, scan_prior_tracks};

#[test]
fn key_face_is_the_first_of_the_largest() {
    let ids = vec![vec![0u32, 1], vec![0], vec![1, 0], vec![0]];
    let areas = vec![vec![100u32, 50], vec![400], vec![80, 400], vec![300]];
    let mut picks = key_frame_picks(&ids, &areas);
    picks.sort();
    assert_eq!(picks, vec![(0, 1, 0), (1, 2, 0)]);
}

#[test]
fn key_frames_are_the_frames_of_the_picks() {
    let ids = vec![vec![0u32, 1], vec![0], vec![1, 0], vec![0]];
    let areas = vec![vec![100u32, 50], vec![400], vec![80, 400], vec![300]];
    let picks = key_frame_picks(&ids, &areas);
    let keys: Vec<bool> = ids.iter().enumerate().map(|(i, f)| is_key_frame(&picks, i, f)).collect();
    assert_eq!(keys, vec![false, true, true, false]);
}

#[test]
fn key_frame_uses_the_first_face_of_a_track() {
    let picks = vec![(7u32, 0usize, 1usize)];
    assert!(!is_key_frame(&picks, 0, &vec![7, 7]));
    assert!(is_key_frame(&picks, 0, &vec![3, 7]));
    assert!(!is_key_frame(&picks, 1, &vec![3, 7]));
}

#[test]
fn no_faces_no_picks() {
    let ids: Vec<Vec<u32>> = vec![vec![], vec![]];
    assert!(key_frame_picks(&ids, &ids.clone()).is_empty());
}

#[test]
fn list_header_gives_the_count() {
    let lines: Vec<String> = vec!["mean 3".to_string(), "0.5".to_string()];
    let mut pos = 0usize;
    assert_eq!(parse_list_header(&lines, &mut pos, "mean"), Ok(3));
    assert_eq!(pos, 1);
    let mut pos = 2usize;
    assert_eq!(parse_list_header(&lines, &mut pos, "mean"), Err(ListError::MissingHeader));
    let mut pos = 1usize;
    assert_eq!(parse_list_header(&lines, &mut pos, "mean"), Ok(0));
}

#[test]
fn card_samples() {
    assert_eq!(sample_indices(0), Vec::<usize>::new());
    assert_eq!(sample_indices(3), vec![0, 1, 2]);
    assert_eq!(sample_indices(12), vec![0, 2, 4, 6, 8]);
    assert_eq!(sample_indices(11), vec![0, 2, 4, 6, 8]);
    assert_eq!(sample_indices(7), vec![0, 1, 2, 3, 4]);
}

#[test]
fn palette_cycles_through_seven_colours() {
    assert_eq!(palette_color(0), (255, 80, 80));
    assert_eq!(palette_color(2), (80, 150, 255));
    assert_eq!(palette_color(7), (255, 80, 80));
    assert_eq!(palette_color(13), (255, 160, 80));
}

#[test]
fn i32_parsing_follows_from_str() {
    assert_eq!(parse_i32_str("-12"), Some(-12));
    assert_eq!(parse_i32_str("+7"), Some(7));
    assert_eq!(parse_i32_str("-2147483648"), Some(i32::MIN));
    assert_eq!(parse_i32_str("2147483647"), Some(i32::MAX));
    assert_eq!(parse_i32_str("2147483648"), None);
    assert_eq!(parse_i32_str("-"), None);
    assert_eq!(parse_i32_str("-+1"), None);
    assert_eq!(parse_i32_str(""), None);
    assert_eq!(parse_i32_str("1.5"), None);
}

#[test]
fn box_lists() {
    assert_eq!(parse_box_list("10, 20, 30, 40"), [10, 20, 30, 40]);
    assert_eq!(parse_box_list(" -3,4 ,x, 5,6"), [-3, 4, 5, 6]);
    assert_eq!(parse_box_list("1, 2, 3"), [0, 0, 0, 0]);
    assert_eq!(parse_box_list("1,2,3,4,5"), [0, 0, 0, 0]);
    assert_eq!(parse_box_list(""), [0, 0, 0, 0]);
}

#[test]
fn prior_tracks_of_a_report() {
    let json = "{\n  \"tracks\": [\n    {\n      \"face_id\": 3,\n      \"sample_box\": [1, 2, 30, 40],\n      \"gallery\": [0.5,0.25]\n    },\n    {\n      \"face_id\": 9,\n      \"sample_box\": [5, 6, 7, 8]\n    }\n  ]\n}\n";
    let entries = scan_prior_tracks(json);
    assert_eq!(entries.len(), 2);
    assert_eq!(entries[0].face_id, 3);
    let (l, r) = entries[0].box_span.unwrap();
    assert_eq!(&json[l..r], "1, 2, 30, 40");
    assert_eq!(parse_box_list(&json[l..r]), [1, 2, 30, 40]);
    let (gl, gr) = entries[0].gallery_span.unwrap();
    assert_eq!(&json[gl..gr], "0.5,0.25");
    assert_eq!(entries[1].face_id, 9);
    let (l, r) = entries[1].box_span.unwrap();
    assert_eq!(&json[l..r], "5, 6, 7, 8");
    assert!(entries[1].gallery_span.is_none());
}

#[test]
fn prior_ids_that_do_not_read_are_skipped() {
    let json = "xxxxxxxxxxxxxxxxxxxx \"face_id\": abc, \"face_id\":\t42, \"sample_box\": [1,2,3,4] padding padding";
    let entries = scan_prior_tracks(json);
    assert_eq!(entries.len(), 1);
    assert_eq!(entries[0].face_id, 42);
}

#[test]
fn short_reports_have_no_tracks() {
    assert!(scan_prior_tracks("{\"face_id\": 1}").is_empty());
    assert!(scan_prior_tracks("").is_empty());
}

fn touch_matrix(n: usize, edges: &[(usize, usize)]) -> Vec<Vec<bool>> {
    let mut t = vec![vec![false; n]; n];
    for &(a, b) in edges {
        t[a][b] = true;
        t[b][a] = true;
    }
    t
}

#[test]
fn overlap_groups_are_components_by_smallest_member() {
    let t = touch_matrix(6, &[(4, 1), (1, 5), (2, 3)]);
    let g = rs_face::imgproc::overlap_groups(&t);
    assert_eq!(g, vec![vec![0], vec![1, 4, 5], vec![2, 3]]);
}

#[test]
fn overlap_groups_of_nothing_and_of_a_chain() {
    assert!(rs_face::imgproc::overlap_groups(&[]).is_empty());
    let t = touch_matrix(4, &[(0, 1), (1, 2), (2, 3)]);
    assert_eq!(rs_face::imgproc::overlap_groups(&t), vec![vec![0, 1, 2, 3]]);
}

#[test]
fn class_labels_by_first_appearance() {
    let mut names: Vec<String> = Vec::new();
    assert_eq!(rs_face::dataset::class_label(&mut names, "s1"), 0);
    assert_eq!(rs_face::dataset::class_label(&mut names, "s2"), 1);
    assert_eq!(rs_face::dataset::class_label(&mut names, "s1"), 0);
    assert_eq!(names, vec!["s1".to_string(), "s2".to_string()]);
}
