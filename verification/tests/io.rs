use zipng::io::{output_buffer, OutputBuffer, TaggedRange};

fn describe(range: &TaggedRange) -> String {
    let children: Vec<String> = range.children().iter().map(describe).collect();
    format!(
        "{}[{}..{} @{}]({})",
        range.name(),
        range.start(),
        range.end(),
        range.depth,
        children.join(" ")
    )
}

#[test]
fn test_output_buffer() {
    let mut buffer = output_buffer();

    buffer.start("png", "png");

    buffer.start("png", "signature");
    buffer.extend(b"\x89PNG\r");
    buffer.end("png", "signature");

    buffer.start("png", "header");
    buffer.extend(b"\x00\x00\x00\rIHDR");

    buffer.start("png", "body");

    buffer.start("ZIP", "ZIP");

    let mut sub = output_buffer();
    sub.start("png", "sub");
    sub.extend(b"\x90PNG\r");
    sub.end("png", "sub");
    buffer.concat(&sub);

    buffer.end("png", "body");

    buffer.end("ZIP", "ZIP");
    buffer.end("png", "PNG");
    buffer.end("png", "png");

    let zip = buffer.root_tags("ZIP").unwrap();
    assert_eq!(zip.len(), 1);
    assert_eq!(describe(&zip[0]), "ZIP[13..18 @0]()");

    let png = buffer.root_tags("png").unwrap();
    assert_eq!(png.len(), 1);
    assert_eq!(
        describe(&png[0]),
        "png[0..18 @0](signature[0..5 @1]() header[5..18 @1](body[13..18 @2](sub[13..18 @3]())))"
    );
    assert!(buffer.root_tags("PNG").is_none());

    let text = String::from_utf8(buffer.render()).unwrap();
    assert_eq!(
        text,
        [
            "<png:png>\n",
            "    <png:signature>\n",
            "        &#x89;PNG&#x0D;\n",
            "    </png:signature>\n",
            "    <png:header>\n",
            "        &#0;&#0;&#0;&#x0D;IHDR\n",
            "<ZIP:ZIP>\n",
            "        <png:body>\n",
            "            <png:sub>\n",
            "                    &#x90;PNG&#x0D;\n",
            "            </png:sub>\n",
            "        </png:body>\n",
            "    </png:header>\n",
            "</ZIP:ZIP>\n",
            "</png:png>\n",
        ]
        .concat()
    );
}

#[test]
fn bytes_without_tags() {
    let mut buffer = OutputBuffer::new();
    buffer.extend(b"a<b>&c");
    buffer.push(0);
    buffer.push(0x7F);
    assert_eq!(buffer.len(), 8);
    assert_eq!(buffer.offset(), 8);
    assert!(buffer.tracks().is_empty());
    assert_eq!(
        String::from_utf8(buffer.render()).unwrap(),
        "a&lt;b&gt;&amp;c&#0;&#x7F;"
    );
    assert_eq!(buffer.into_bytes(), b"a<b>&c\x00\x7F".to_vec());
}

#[test]
fn ranges_nest_by_track() {
    let mut buffer = output_buffer();
    buffer.start("outer", "a");
    buffer.extend(b"xy");
    buffer.start("outer", "b");
    buffer.start("other", "c");
    buffer.extend(b"z");
    buffer.end("outer", "b");
    buffer.end("other", "c");
    buffer.end("outer", "a");

    assert_eq!(buffer.tracks(), vec!["other".to_string(), "outer".to_string()]);
    let outer = buffer.root_tags("outer").unwrap();
    assert_eq!(describe(&outer[0]), "a[0..3 @0](b[2..3 @1]())");
    assert_eq!(outer[0].len(), 3);
    assert_eq!(outer[0].range(), 0..3);
    let other = buffer.root_tags("other").unwrap();
    assert_eq!(describe(&other[0]), "c[2..3 @0]()");

    let walk: Vec<String> = buffer.walk_tags("outer").iter().map(|e| format!("{e:?}")).collect();
    assert_eq!(
        walk,
        vec![
            "OutputBufferWalkEntry { index: 0, depth: 0, is_closing: false, track: \"outer\", tag: \"a\" }",
            "OutputBufferWalkEntry { index: 2, depth: 1, is_closing: false, track: \"outer\", tag: \"b\" }",
            "OutputBufferWalkEntry { index: 3, depth: 1, is_closing: true, track: \"outer\", tag: \"b\" }",
            "OutputBufferWalkEntry { index: 3, depth: 0, is_closing: true, track: \"outer\", tag: \"a\" }",
        ]
    );
    assert!(buffer.walk_tags("missing").is_empty());

    let names: Vec<String> = outer[0].iter().iter().map(|r| r.name().clone()).collect();
    assert_eq!(names, vec!["a".to_string(), "b".to_string()]);
}

#[test]
fn concat_moves_complete_tags_and_drops_open_ones() {
    let mut first = output_buffer();
    first.extend(b"abc");

    let mut second = output_buffer();
    second.start("t", "done");
    second.extend(b"de");
    second.end("t", "done");
    second.start("t", "unfinished");
    second.extend(b"f");

    first.concat(&second);
    assert_eq!(first.len(), 6);
    let roots = first.root_tags("t").unwrap();
    assert_eq!(roots.len(), 1);
    assert_eq!(describe(&roots[0]), "done[3..5 @0]()");
    let copy = roots[0].clone();
    assert_eq!(describe(&copy), "done[3..5 @0]()");
    assert_eq!(first.into_bytes(), b"abcdef".to_vec());
}

#[test]
fn empty_range_closes_before_it_opens() {
    let mut buffer = output_buffer();
    buffer.start("t", "empty");
    buffer.end("t", "empty");
    buffer.extend(b"x");
    assert_eq!(
        String::from_utf8(buffer.render()).unwrap(),
        "</t:empty>\n<t:empty>\nx"
    );
}

#[test]
fn concat_onto_empty_keeps_tags() {
    let mut other = output_buffer();
    other.start("t", "outer");
    other.extend(b"ab");
    other.start("t", "inner");
    other.extend(b"c");
    other.end("t", "inner");
    other.end("t", "outer");
    other.start("u", "open");

    let mut empty = output_buffer();
    empty.concat(&other);
    assert_eq!(describe(&empty.root_tags("t").unwrap()[0]), describe(&other.root_tags("t").unwrap()[0]));
    assert_eq!(empty.render(), other.render());
    assert!(empty.root_tags("u").is_none());
    assert_eq!(empty.tracks(), vec!["t".to_string()]);
}

#[test]
fn concatenated_ranges_move_with_everything_nested_in_them() {
    let mut other = output_buffer();
    other.extend(b"ab");
    other.start("t", "outer");
    other.extend(b"cd");
    other.start("t", "inner");
    other.extend(b"ef");
    other.end("t", "inner");
    other.end("t", "outer");
    assert_eq!(describe(&other.root_tags("t").unwrap()[0]), "outer[2..6 @0](inner[4..6 @1]())");

    let mut buffer = output_buffer();
    buffer.extend(b"0123456789");
    buffer.start("t", "top");
    buffer.concat(&other);
    buffer.end("t", "top");
    assert_eq!(buffer.as_slice(), b"0123456789abcdef");
    assert_eq!(
        describe(&buffer.root_tags("t").unwrap()[0]),
        "top[10..16 @0](outer[12..16 @1](inner[14..16 @2]()))"
    );

    let mut flat = output_buffer();
    flat.extend(b"xyz");
    flat.concat(&other);
    assert_eq!(describe(&flat.root_tags("t").unwrap()[0]), "outer[5..9 @0](inner[7..9 @1]())");
}
