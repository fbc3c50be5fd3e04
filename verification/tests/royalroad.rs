use zipng::royalroad::page::{chapter_from_page, spine_from_page, PageError};
use zipng::royalroad::{
    chapter_id10, chapter_id_from_href, chapter_preview, decimal_padded, fic_id10, fiction_title,
    link_title, rich_spine, rich_spine_chapter, Fic, FicChapter, Spine, SpineChapter,
};
use zipng::royalroad::{chapter_timestamp, parse_timestamp};
use zipng::web::{digest, digest_string};

#[test]
fn cache_names() {
    assert_eq!(fic_id10(21220), "RYL0021220");
    assert_eq!(fic_id10(123456789), "RYL123456789");
    assert_eq!(chapter_id10(42), "C000000042");
    assert_eq!(decimal_padded(0, 0), "0");
    assert_eq!(decimal_padded(u64::MAX, 3), "18446744073709551615");
}

#[test]
fn chapter_ids_from_links() {
    assert_eq!(
        chapter_id_from_href(
            "https://www.royalroad.com/fiction/21220/mother-of-learning/chapter/301778/1-good-morning-brother"
        ),
        Some(301778)
    );
    assert_eq!(chapter_id_from_href("/fiction/1/x/chapter/+12/y"), Some(12));
    assert_eq!(chapter_id_from_href("https://x/chapter/5"), Some(5));
    assert_eq!(chapter_id_from_href("/chapter/abc/"), None);
    assert_eq!(chapter_id_from_href("/chapter/99999999999999999999"), None);
    assert_eq!(chapter_id_from_href("/chapter/18446744073709551615"), Some(u64::MAX));
    assert_eq!(chapter_id_from_href("/chapter/chapter/7"), None);
    assert_eq!(chapter_id_from_href("/chapter/"), None);
}

#[test]
fn titles_are_trimmed() {
    assert_eq!(fiction_title("  Mother of Learning | Royal Road"), "Mother of Learning");
    assert_eq!(fiction_title("\u{A0}Title\u{3000}"), "Title");
    assert_eq!(fiction_title("|"), "");
    assert_eq!(link_title("\n  1. Good Morning Brother \n"), "1. Good Morning Brother");
}

#[test]
fn chapter_previews() {
    assert_eq!(
        chapter_preview("<p>Hello   world,\n this is</p>"),
        Some("<p>Hello world, this".to_string())
    );
    assert_eq!(chapter_preview("  nospace  "), None);
    let long = "word ".repeat(40);
    let preview = chapter_preview(&long).unwrap();
    assert_eq!(preview, "word ".repeat(18) + "word");
}

#[test]
fn digests() {
    assert_eq!(digest_string(0x1234), "x0000000000001234");
    assert_eq!(digest_string(u64::MAX), "xFFFFFFFFFFFFFFFF");
    let d = digest(b"https://www.royalroad.com/fiction/21220");
    assert_eq!(d.len(), 17);
    assert!(d.starts_with('x'));
    assert!(d[1..].chars().all(|c| c.is_ascii_digit() || ('A'..='F').contains(&c)));
    assert_eq!(d, digest(b"https://www.royalroad.com/fiction/21220"));
}

#[test]
fn fiction_model() {
    let chapter = SpineChapter::new(301778, 1_400_000_000, "One".to_string());
    assert_eq!(chapter.id10, "C000301778");
    let spine = Spine::new(21220, "Mother of Learning".to_string(), vec![chapter.clone()]);
    assert_eq!(spine.id10, "RYL0021220");
    let fic_chapter = FicChapter::new(&chapter, "<p>Zorian woke up</p>".to_string());
    assert_eq!(fic_chapter.id10, "C000301778");
    let fic = Fic::new(&spine, vec![fic_chapter.clone()]);
    assert_eq!(fic.title, "Mother of Learning");
    let summary = rich_spine_chapter(&fic_chapter).unwrap();
    assert_eq!(summary.length, 21);
    assert_eq!(summary.starts_with, "<p>Zorian woke");
    let rich = rich_spine(&fic, fic.id10.clone()).unwrap();
    assert_eq!(rich.length, 21);
    assert_eq!(rich.author, "TODO");
    assert_eq!(rich.chapters.len(), 1);
    let silent = FicChapter::new(&chapter, "<p>...</p>".to_string());
    assert!(rich_spine_chapter(&silent).is_none());
    assert!(rich_spine(&Fic::new(&spine, vec![silent]), String::new()).is_none());
}

#[test]
fn chapter_times() {
    assert_eq!(chapter_timestamp(Some("1400000000"), None), Some(1_400_000_000));
    assert_eq!(chapter_timestamp(Some("soon"), Some("Friday, 14 March 2014 12:30")), None);
    assert_eq!(chapter_timestamp(None, Some("Friday, 14 March 2014 12:30")), Some(1_394_800_200));
    assert_eq!(chapter_timestamp(None, Some("Friday, March 14, 2014 12:30 PM")), Some(1_394_800_200));
    assert_eq!(chapter_timestamp(None, Some("yesterday")), None);
    assert_eq!(chapter_timestamp(None, None), None);
    assert_eq!(parse_timestamp("-9223372036854775808"), Some(i64::MIN));
    assert_eq!(parse_timestamp("9223372036854775808"), None);
    assert_eq!(parse_timestamp("+42"), Some(42));
    assert_eq!(parse_timestamp("-+42"), None);
    assert_eq!(parse_timestamp("-"), None);
}

const STORY_PAGE: &str = r#"<!DOCTYPE html>
<html><head><title> My Story | Royal Road</title></head><body>
<table id="chapters"><tbody>
<tr><td><a href="/fiction/1/my-story/chapter/20/two"> Two </a></td>
<td><a href="/fiction/1/my-story/chapter/20/two"><time unixtime="1700000100" title="ignored">x</time></a></td></tr>
<tr><td><a href="https://www.royalroad.com/fiction/1/my-story/chapter/10/one">One</a></td>
<td><time title="Monday, 13 November 2023 10:00">y</time></td></tr>
<tr><td><a href="/fiction/1/my-story/chapter/20/two"> Two </a></td>
<td><time unixtime="1700000100">x</time></td></tr>
</tbody></table></body></html>"#;

#[test]
fn spine_from_a_page() {
    let spine = spine_from_page(1, STORY_PAGE).unwrap();
    assert_eq!(spine.id, 1);
    assert_eq!(spine.id10, "RYL0000001");
    assert_eq!(spine.title, "My Story");
    let chapters: Vec<(u64, String, i64, String)> = spine
        .chapters
        .iter()
        .map(|c| (c.id, c.id10.clone(), c.timestamp, c.title.clone()))
        .collect();
    assert_eq!(
        chapters,
        vec![
            (10, "C000000010".to_string(), 1699869600, "One".to_string()),
            (20, "C000000020".to_string(), 1700000100, "Two".to_string()),
        ]
    );
}

#[test]
fn spine_page_errors() {
    assert_eq!(
        spine_from_page(1, "<html><body><p>no title</p></body></html>").unwrap_err(),
        PageError::MissingTitle
    );
    let without_time = r#"<title>T</title><table id="chapters"><tbody>
        <tr><td><a href="/fiction/1/t/chapter/3/c">C</a></td></tr></tbody></table>"#;
    assert_eq!(spine_from_page(1, without_time).unwrap_err(), PageError::MissingTime);
    let without_number = r#"<title>T</title><table id="chapters"><tbody>
        <tr><td><a href="/fiction/1/t/chapter/c">C</a></td><td><time unixtime="5">t</time></td></tr>
        </tbody></table>"#;
    assert_eq!(spine_from_page(1, without_number).unwrap_err(), PageError::NoChapterNumber);
    let bad_time = r#"<title>T</title><table id="chapters"><tbody>
        <tr><td><a href="/fiction/1/t/chapter/3/c">C</a></td><td><time unixtime="soon">t</time></td></tr>
        </tbody></table>"#;
    assert_eq!(spine_from_page(1, bad_time).unwrap_err(), PageError::BadTime);
    let empty = spine_from_page(7, "<title>Empty</title>").unwrap();
    assert_eq!(empty.title, "Empty");
    assert!(empty.chapters.is_empty());
}

#[test]
fn chapter_text_is_cleaned() {
    let page = r#"<html><body><div class="chapter-inner"><p>Hi <span>there</span><img src="x.png">
        <a href="/relative">near</a> <a href="https://example.com/">far</a>
        <script>alert(1)</script></p></div><div class="chapter-inner">second</div></body></html>"#;
    let html = chapter_from_page(page).unwrap();
    assert!(html.contains("Hi there"));
    assert!(!html.contains("<span"));
    assert!(!html.contains("<img"));
    assert!(!html.contains("script"));
    assert!(!html.contains("/relative"));
    assert!(html.contains("https://example.com/"));
    assert!(!html.contains("second"));
    assert_eq!(chapter_from_page("<p>nothing here</p>").unwrap_err(), PageError::MissingChapter);
}

#[test]
fn chapters_form_ordered_sets() {
    let late = SpineChapter::new(1_000_000_000, 5, "Late".to_string());
    let early = SpineChapter::new(200_000_000, 9, "Early".to_string());
    let spine = Spine::new(3, "Sets".to_string(), vec![late.clone(), early.clone()]);
    let late_text = FicChapter::new(&late, "<p>late chapter text</p>".to_string());
    let early_text = FicChapter::new(&early, "<p>early chapter</p>".to_string());
    let fic = Fic::new(&spine, vec![late_text.clone(), early_text.clone(), late_text.clone()]);
    let ids: Vec<u64> = fic.chapters.iter().map(|c| c.id).collect();
    assert_eq!(ids, vec![200_000_000, 1_000_000_000]);

    let rich = rich_spine(&fic, fic.id10.clone()).unwrap();
    let names: Vec<String> = rich.chapters.iter().map(|c| c.id10.clone()).collect();
    assert_eq!(names, vec!["C1000000000".to_string(), "C200000000".to_string()]);
    assert_eq!(rich.length, 20 + 24);

    let twice = Fic { chapters: vec![early_text.clone(), early_text.clone()], ..fic.clone() };
    let rich_twice = rich_spine(&twice, String::new()).unwrap();
    assert_eq!(rich_twice.chapters.len(), 1);
    assert_eq!(rich_twice.length, 20);
}
