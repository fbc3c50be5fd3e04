//! Reading Royal Road's pages: a fiction's table of contents, and the text
//! of a chapter.

use vstd::prelude::*;
use vstd::utf8::encode_utf8;

use crate::royalroad::contents::{increasing, insert_entry, keys_of, SetEntry};
use crate::royalroad::{
    chapter_id_from_href, chapter_name, chapter_time, chapter_timestamp, fic_name, fiction_title,
    href_chapter_id, index_of_char, link_title, trim, Spine, SpineChapter,
};

verus! {

/// What `scraper` finds in the HTML document `page` for the CSS `selector`:
/// the outer HTML of each matching element in document order, or `None`
/// where `selector` is not valid.
pub uninterp spec fn selected_html(page: Seq<char>, selector: Seq<char>) -> Option<Seq<Seq<char>>>;

/// What `scraper` finds in the HTML document `page` for each element that
/// `outer` matches: the outer HTML of the elements inside it that `first`
/// matches, and of those that `second` matches; `None` where a selector is
/// not valid.
pub uninterp spec fn selected_within_html(
    page: Seq<char>,
    outer: Seq<char>,
    first: Seq<char>,
    second: Seq<char>,
) -> Option<Seq<(Seq<Seq<char>>, Seq<Seq<char>>)>>;

/// The first text node in the HTML fragment `fragment`, as `scraper` parses
/// it.
pub uninterp spec fn fragment_text(fragment: Seq<char>) -> Option<Seq<char>>;

/// The attribute `name` of the first element of the HTML fragment
/// `fragment`, as `scraper` parses it.
pub uninterp spec fn fragment_attribute(fragment: Seq<char>, name: Seq<char>) -> Option<Seq<char>>;

/// `html` as `ammonia` cleans it with its default rules, less the tags
/// `removed_tags`, with links only of the schemes `url_schemes`, and
/// without relative links.
pub uninterp spec fn cleaned_html(
    html: Seq<char>,
    removed_tags: Seq<Seq<char>>,
    url_schemes: Seq<Seq<char>>,
) -> Seq<char>;

/// Calls `scraper::Html::parse_document` on `page` and `select` with
/// `selector` parsed by `scraper::Selector::parse`, and gives the `html` of
/// each element found; `None` where the selector does not parse. Named
/// `selected_html`.
#[verifier::external_body]
fn select_html(page: &str, selector: &str) -> (found: Option<Vec<String>>)
    ensures
        found.deep_view() == selected_html(page@, selector@),
{
    let selector = scraper::Selector::parse(selector).ok()?;
    let document = scraper::Html::parse_document(page);
    let found = document.select(&selector).map(|element| element.html()).collect();
    Some(found)
}

/// Calls `scraper::Html::parse_document` on `page`, `select` with `outer`,
/// and within each element found `select` with `first` and with `second`,
/// giving the `html` of the elements found inside; `None` where a selector
/// does not parse. Named `selected_within_html`.
#[verifier::external_body]
fn select_within_html(page: &str, outer: &str, first: &str, second: &str) -> (found: Option<
    Vec<(Vec<String>, Vec<String>)>,
>)
    ensures
        found.deep_view() == selected_within_html(page@, outer@, first@, second@),
{
    let (outer, first, second) = (
        scraper::Selector::parse(outer).ok()?,
        scraper::Selector::parse(first).ok()?,
        scraper::Selector::parse(second).ok()?,
    );
    let document = scraper::Html::parse_document(page);
    let found = document.select(&outer).map(
        |e| (e.select(&first).map(|x| x.html()).collect(), e.select(&second).map(|x| x.html()).collect()),
    ).collect();
    Some(found)
}

/// Calls `scraper::Html::parse_fragment` on `fragment` and gives the first
/// item of `text` of its root element. Named `fragment_text`.
#[verifier::external_body]
fn first_text(fragment: &str) -> (text: Option<String>)
    ensures
        text.deep_view() == fragment_text(fragment@),
{
    scraper::Html::parse_fragment(fragment).root_element().text().next().map(|t| t.to_string())
}

/// Calls `scraper::Html::parse_fragment` on `fragment` and gives the
/// attribute `name` of the first of `child_elements` of its root element.
/// Named `fragment_attribute`.
#[verifier::external_body]
fn first_attribute(fragment: &str, name: &str) -> (value: Option<String>)
    ensures
        value.deep_view() == fragment_attribute(fragment@, name@),
{
    let document = scraper::Html::parse_fragment(fragment);
    let element = document.root_element().child_elements().next()?;
    element.value().attr(name).map(|v| v.to_string())
}

/// Calls `ammonia::Builder::new`, then `rm_tags` with `removed_tags`,
/// `url_schemes` with `url_schemes`, `url_relative` with `Deny`, and `clean`
/// on `html`, and gives the result as a string. Named `cleaned_html`.
#[verifier::external_body]
fn clean_html(html: &str, removed_tags: &Vec<String>, url_schemes: &Vec<String>) -> (cleaned: String)
    ensures
        cleaned@ == cleaned_html(html@, removed_tags.deep_view(), url_schemes.deep_view()),
{
    let schemes: std::collections::HashSet<&str> = url_schemes.iter().map(|s| s.as_str()).collect();
    ammonia::Builder::new()
        .rm_tags(removed_tags.iter().map(|t| t.as_str()))
        .url_schemes(schemes)
        .url_relative(ammonia::UrlRelative::Deny)
        .clean(html)
        .to_string()
}

/// Why a page could not be read.
#[derive(Debug, Clone, Copy, PartialEq, Eq)]
pub enum PageError {
    /// A CSS selector did not parse.
    Selector,
    /// The page has no `title` element with text.
    MissingTitle,
    /// A row of the table of chapters has no link.
    MissingLink,
    /// A row of the table of chapters has no `time` element.
    MissingTime,
    /// A chapter's `time` element has no time that parses.
    BadTime,
    /// A chapter's link has no text.
    MissingLinkText,
    /// A chapter's link has no `href`.
    MissingHref,
    /// A chapter's link holds no chapter number.
    NoChapterNumber,
    /// A chapter's page has no chapter text.
    MissingChapter,
}

/// A table-of-contents entry as mathematical values: the chapter number,
/// the time, and the title.
pub type ChapterView = (u64, i64, Seq<char>);

/// The key by which the entry `chapter` is ordered.
pub open spec fn view_key(chapter: ChapterView) -> <SpineChapter as SetEntry>::Key {
    (chapter.0 as int, encode_utf8(chapter_name(chapter.0)), chapter.1 as int, encode_utf8(chapter.2))
}

/// The entry for a row of the table of chapters, given the outer HTML of the
/// row's links and of its `time` elements: the number in the first link's
/// `href`, the time of the first `time` element, and the first link's text
/// without surrounding white space.
pub open spec fn row_chapter(row: (Seq<Seq<char>>, Seq<Seq<char>>)) -> Result<ChapterView, PageError> {
    if row.0.len() == 0 {
        Err(PageError::MissingLink)
    } else if row.1.len() == 0 {
        Err(PageError::MissingTime)
    } else {
        let (link, time) = (row.0[0], row.1[0]);
        let unixtime = match fragment_attribute(time, "unixtime"@) {
            Some(u) => Some(encode_utf8(u)),
            None => None,
        };
        match chapter_time(unixtime, fragment_attribute(time, "title"@)) {
            None => Err(PageError::BadTime),
            Some(timestamp) => match fragment_text(link) {
                None => Err(PageError::MissingLinkText),
                Some(text) => match fragment_attribute(link, "href"@) {
                    None => Err(PageError::MissingHref),
                    Some(href) => match href_chapter_id(encode_utf8(href)) {
                        None => Err(PageError::NoChapterNumber),
                        Some(id) => Ok((id, timestamp, trim(text))),
                    },
                },
            },
        }
    }
}

/// The entries for the rows in order, or the error of the first row that
/// has none.
pub open spec fn rows_chapters(rows: Seq<(Seq<Seq<char>>, Seq<Seq<char>>)>) -> Result<Seq<ChapterView>, PageError>
    decreases rows.len(),
{
    if rows.len() == 0 {
        Ok(Seq::empty())
    } else {
        match rows_chapters(rows.drop_last()) {
            Err(e) => Err(e),
            Ok(chapters) => match row_chapter(rows.last()) {
                Err(e) => Err(e),
                Ok(chapter) => Ok(chapters.push(chapter)),
            },
        }
    }
}

/// The title of the fiction whose page is `page`: the text of its first
/// `title` element before the first `|`, without surrounding white space.
pub open spec fn page_title(page: Seq<char>) -> Result<Seq<char>, PageError> {
    match selected_html(page, "title"@) {
        None => Err(PageError::Selector),
        Some(titles) => if titles.len() == 0 {
            Err(PageError::MissingTitle)
        } else {
            match fragment_text(titles[0]) {
                None => Err(PageError::MissingTitle),
                Some(text) => Ok(trim(text.take(index_of_char(text, '|') as int))),
            }
        },
    }
}

/// The title and the set of entries of the table of contents in `page`: one
/// entry for each row of the table of chapters.
pub open spec fn page_contents(page: Seq<char>) -> Result<(Seq<char>, Set<<SpineChapter as SetEntry>::Key>), PageError> {
    match page_title(page) {
        Err(e) => Err(e),
        Ok(title) => match selected_within_html(page, "table#chapters tbody tr"@, "a"@, "time"@) {
            None => Err(PageError::Selector),
            Some(rows) => match rows_chapters(rows) {
                Err(e) => Err(e),
                Ok(chapters) => Ok((title, chapters.map_values(|c: ChapterView| view_key(c)).to_set())),
            },
        },
    }
}

/// The entry for one row (see [`row_chapter`]).
fn read_row(links: &Vec<String>, times: &Vec<String>) -> (chapter: Result<SpineChapter, PageError>)
    ensures
        match (chapter, row_chapter((links.deep_view(), times.deep_view()))) {
            (Ok(c), Ok(view)) => c.key() == view_key(view),
            (Err(e), Err(f)) => e == f,
            _ => false,
        },
{
    if links.len() == 0 {
        return Err(PageError::MissingLink);
    }
    if times.len() == 0 {
        return Err(PageError::MissingTime);
    }
    let (link, time) = (&links[0], &times[0]);
    let unixtime = first_attribute(time.as_str(), "unixtime");
    let time_title = first_attribute(time.as_str(), "title");
    let unixtime_text = match &unixtime {
        Some(u) => Some(u.as_str()),
        None => None,
    };
    let title_text = match &time_title {
        Some(t) => Some(t.as_str()),
        None => None,
    };
    let timestamp = match chapter_timestamp(unixtime_text, title_text) {
        Some(t) => t,
        None => {
            return Err(PageError::BadTime);
        },
    };
    let text = match first_text(link.as_str()) {
        Some(t) => t,
        None => {
            return Err(PageError::MissingLinkText);
        },
    };
    let href = match first_attribute(link.as_str(), "href") {
        Some(h) => h,
        None => {
            return Err(PageError::MissingHref);
        },
    };
    let id = match chapter_id_from_href(href.as_str()) {
        Some(id) => id,
        None => {
            return Err(PageError::NoChapterNumber);
        },
    };
    Ok(SpineChapter::new(id, timestamp, link_title(text.as_str())))
}

/// The table of contents of fiction `id` from its page `page`: the title,
/// and one entry for each row of the table of chapters, as an ordered set.
pub fn spine_from_page(id: u64, page: &str) -> (spine: Result<Spine, PageError>)
    ensures
        match (spine, page_contents(page@)) {
            (Ok(s), Ok((title, keys))) => {
                &&& s.id == id
                &&& s.id10@ == fic_name(id)
                &&& s.title@ == title
                &&& increasing::<SpineChapter>(keys_of(s.chapters@))
                &&& keys_of(s.chapters@).to_set() == keys
            },
            (Err(e), Err(f)) => e == f,
            _ => false,
        },
{
    let titles = match select_html(page, "title") {
        Some(t) => t,
        None => {
            return Err(PageError::Selector);
        },
    };
    if titles.len() == 0 {
        return Err(PageError::MissingTitle);
    }
    let title_text = match first_text(titles[0].as_str()) {
        Some(t) => t,
        None => {
            return Err(PageError::MissingTitle);
        },
    };
    let title = fiction_title(title_text.as_str());
    let rows = match select_within_html(page, "table#chapters tbody tr", "a", "time") {
        Some(r) => r,
        None => {
            return Err(PageError::Selector);
        },
    };
    let ghost all_rows = rows.deep_view();
    let mut chapters: Vec<SpineChapter> = Vec::new();
    let ghost views: Seq<ChapterView> = Seq::empty();
    let mut r: usize = 0;
    proof {
        assert(keys_of(chapters@) =~= Seq::<<SpineChapter as SetEntry>::Key>::empty());
        assert(views.map_values(|c: ChapterView| view_key(c)).to_set() =~= Set::<<SpineChapter as SetEntry>::Key>::empty());
        assert(keys_of(chapters@).to_set() =~= Set::<<SpineChapter as SetEntry>::Key>::empty());
        assert(all_rows.take(0) =~= Seq::empty());
    }
    while r < rows.len()
        invariant
            r <= rows@.len(),
            all_rows == rows.deep_view(),
            all_rows.len() == rows@.len(),
            page_title(page@) == Ok::<Seq<char>, PageError>(title@),
            selected_within_html(page@, "table#chapters tbody tr"@, "a"@, "time"@) == Some(all_rows),
            rows_chapters(all_rows.take(r as int)) == Ok::<Seq<ChapterView>, PageError>(views),
            increasing::<SpineChapter>(keys_of(chapters@)),
            keys_of(chapters@).to_set() == views.map_values(|c: ChapterView| view_key(c)).to_set(),
        decreases rows@.len() - r,
    {
        let row = &rows[r];
        proof {
            assert(all_rows[r as int] == (row.0.deep_view(), row.1.deep_view()));
            assert(all_rows.take(r + 1).drop_last() =~= all_rows.take(r as int));
            assert(all_rows.take(r + 1).last() == all_rows[r as int]);
        }
        let chapter = match read_row(&row.0, &row.1) {
            Ok(c) => c,
            Err(e) => {
                proof {
                    lemma_rows_error_stays(all_rows, r as int + 1);
                }
                return Err(e);
            },
        };
        let ghost view = match row_chapter(all_rows[r as int]) {
            Ok(v) => v,
            Err(_) => views[0],
        };
        proof {
            let before = views.map_values(|c: ChapterView| view_key(c));
            let after = views.push(view).map_values(|c: ChapterView| view_key(c));
            assert(after =~= before.push(view_key(view)));
            assert forall|x: <SpineChapter as SetEntry>::Key| after.contains(x) <==> before.contains(x) || x == view_key(view) by {
                if after.contains(x) {
                    let i = choose|i: int| 0 <= i < after.len() && after[i] == x;
                    if i < before.len() {
                        assert(before[i] == x);
                    }
                }
                if before.contains(x) {
                    let i = choose|i: int| 0 <= i < before.len() && before[i] == x;
                    assert(after[i] == x);
                }
                if x == view_key(view) {
                    assert(after[before.len() as int] == x);
                }
            }
            assert(after.to_set() =~= before.to_set().insert(view_key(view)));
        }
        insert_entry(&mut chapters, chapter);
        proof {
            views = views.push(view);
        }
        r = r + 1;
    }
    proof {
        assert(all_rows.take(r as int) =~= all_rows);
    }
    Ok(Spine::new(id, title, chapters))
}

/// Once a row has no entry, the rows up to any later one have none either,
/// with the same error.
proof fn lemma_rows_error_stays(rows: Seq<(Seq<Seq<char>>, Seq<Seq<char>>)>, k: int)
    requires
        0 <= k <= rows.len(),
        rows_chapters(rows.take(k)) is Err,
    ensures
        rows_chapters(rows) == rows_chapters(rows.take(k)),
    decreases rows.len() - k,
{
    if k < rows.len() {
        assert(rows.take(k + 1).drop_last() =~= rows.take(k));
        lemma_rows_error_stays(rows, k + 1);
    } else {
        assert(rows.take(k) =~= rows);
    }
}

/// The tags that cleaning a chapter removes.
pub open spec fn removed_tags() -> Seq<Seq<char>> {
    seq!["img"@, "span"@]
}

/// The only link schemes that cleaning a chapter keeps.
pub open spec fn chapter_url_schemes() -> Seq<Seq<char>> {
    seq!["http"@, "https"@, "mailto"@, "magnet"@]
}

/// The text of the chapter whose page is `page`: its first
/// `div.chapter-inner` element, cleaned.
pub open spec fn page_chapter(page: Seq<char>) -> Result<Seq<char>, PageError> {
    match selected_html(page, "div.chapter-inner"@) {
        None => Err(PageError::Selector),
        Some(found) => if found.len() == 0 {
            Err(PageError::MissingChapter)
        } else {
            Ok(cleaned_html(found[0], removed_tags(), chapter_url_schemes()))
        },
    }
}

/// The text of the chapter whose page is `page` (see [`page_chapter`]).
pub fn chapter_from_page(page: &str) -> (html: Result<String, PageError>)
    ensures
        match (html, page_chapter(page@)) {
            (Ok(h), Ok(text)) => h@ == text,
            (Err(e), Err(f)) => e == f,
            _ => false,
        },
{
    let found = match select_html(page, "div.chapter-inner") {
        Some(f) => f,
        None => {
            return Err(PageError::Selector);
        },
    };
    if found.len() == 0 {
        return Err(PageError::MissingChapter);
    }
    let mut removed: Vec<String> = Vec::new();
    removed.push("img".to_owned());
    removed.push("span".to_owned());
    let mut schemes: Vec<String> = Vec::new();
    schemes.push("http".to_owned());
    schemes.push("https".to_owned());
    schemes.push("mailto".to_owned());
    schemes.push("magnet".to_owned());
    assert(removed.deep_view() =~= removed_tags());
    assert(schemes.deep_view() =~= chapter_url_schemes());
    Ok(clean_html(found[0].as_str(), &removed, &schemes))
}

} // verus!
