use tanukioke::color::{parse_color, serialize_color, Rgb};
use tanukioke::document::{LrxFile, LyricLine};
use tanukioke::parse::{extract_brackets, extract_text_after_brackets, ParseErrorKind};
use tanukioke::serialize::serialize_lyric_line;
use tanukioke::timestamp::{format_timestamp, parse_timestamp};

#[test]
fn test_parse_timestamp() {
    assert_eq!(parse_timestamp("00:12.00"), Some(1200));
    assert_eq!(parse_timestamp("01:30.50"), Some(9050));
    assert_eq!(parse_timestamp("02:15"), Some(13500));
    assert_eq!(parse_timestamp("invalid"), None);
    // the centisecond counts mean 12.0, 90.5 and 135.0 seconds
    assert_eq!(1200 as f64 / 100.0, 12.0);
    assert_eq!(9050 as f64 / 100.0, 90.5);
    assert_eq!(13500 as f64 / 100.0, 135.0);
}

#[test]
fn test_parse_timestamp_more() {
    assert_eq!(parse_timestamp("00:00"), Some(0));
    assert_eq!(parse_timestamp("00:00.5"), Some(50));
    assert_eq!(parse_timestamp("10:00.99"), Some(60099));
    assert_eq!(parse_timestamp("1:2"), Some(6200));
    assert_eq!(parse_timestamp(""), None);
    assert_eq!(parse_timestamp(":"), None);
    assert_eq!(parse_timestamp("a:b"), None);
    assert_eq!(parse_timestamp("1:2:3"), None);
    assert_eq!(parse_timestamp("1:2.345"), None);
    assert_eq!(parse_timestamp("1:2."), None);
    assert_eq!(parse_timestamp("-1:30"), None);
}

#[test]
fn test_parse_color() {
    let white = parse_color("#FFFFFF").unwrap();
    assert_eq!(white, Rgb { r: 255, g: 255, b: 255 });

    let red = parse_color("#FF0000").unwrap();
    assert_eq!(red, Rgb { r: 255, g: 0, b: 0 });

    assert!(parse_color("FFFFFF").is_none());
    assert!(parse_color("#FFF").is_none());
    assert_eq!(parse_color("#1a2B3c"), Some(Rgb { r: 0x1a, g: 0x2b, b: 0x3c }));
    assert!(parse_color("#GGGGGG").is_none());
}

#[test]
fn test_extract_brackets() {
    let result = extract_brackets("[00:12.00][lead]Text here").unwrap();
    assert_eq!(result, vec!["00:12.00", "lead"]);

    let result = extract_brackets("[ar:Artist]").unwrap();
    assert_eq!(result, vec!["ar:Artist"]);
}

#[test]
fn test_extract_brackets_errors() {
    assert_eq!(extract_brackets("[a[b]]"), Err(ParseErrorKind::NestedBrackets));
    assert_eq!(extract_brackets("[a]]"), Err(ParseErrorKind::UnmatchedBracket));
    assert_eq!(extract_brackets("[abc"), Err(ParseErrorKind::UnclosedBracket));
    assert_eq!(extract_brackets("no brackets").unwrap(), Vec::<String>::new());
}

#[test]
fn test_extract_text() {
    assert_eq!(extract_text_after_brackets("[00:12.00][lead]  Text here "), "Text here");
    assert_eq!(extract_text_after_brackets("[00:12.00]"), "");
    assert_eq!(extract_text_after_brackets("plain"), "plain");
}

#[test]
fn test_format_timestamp() {
    assert_eq!(format_timestamp(1200), "00:12.00");
    assert_eq!(format_timestamp(9050), "01:30.50");
    assert_eq!(format_timestamp(13500), "02:15.00");
}

#[test]
fn test_serialize_color() {
    let white = Rgb { r: 255, g: 255, b: 255 };
    assert_eq!(serialize_color(white), "#FFFFFF");

    let red = Rgb { r: 255, g: 0, b: 0 };
    assert_eq!(serialize_color(red), "#FF0000");
}

#[test]
fn test_serialize_lyric_line() {
    let line = LyricLine::new(1200, "Test lyrics".to_string());
    assert_eq!(serialize_lyric_line(&line), "[00:12.00]Test lyrics\n");

    let line_with_part = LyricLine::with_part(1200, "Test lyrics".to_string(), "lead".to_string());
    assert_eq!(serialize_lyric_line(&line_with_part), "[00:12.00][lead]Test lyrics\n");
}

#[test]
fn test_parse_document() {
    let src = "\
[ti:My Song]
[ar:Artist]

# a comment line
[track.vocals:name=Vocals]
[track.vocals:source=vocals.flac]
[track.vocals:volume=0.8]
[part.lead:name=Lead]
[part.lead:color=#FF0000]

[00:05.00][lead]Third words
[00:01.00]First words
[00:03.00][ghost]Second words
";
    let doc = LrxFile::parse(src).unwrap();
    assert_eq!(doc.metadata.len(), 2);
    assert_eq!(doc.meta_get("ti"), Some(&"My Song".to_string()));
    assert_eq!(doc.meta_get("ar"), Some(&"Artist".to_string()));
    assert_eq!(doc.tracks.len(), 1);
    let t = doc.get_track("vocals").unwrap();
    assert_eq!(t.name, "Vocals");
    assert_eq!(t.source, "vocals.flac");
    assert_eq!(t.volume, 800);
    assert_eq!(doc.parts.len(), 1);
    let p = doc.get_part("lead").unwrap();
    assert_eq!(p.name, "Lead");
    assert_eq!(p.color, Rgb { r: 255, g: 0, b: 0 });
    assert_eq!(p.background_color, None);
    // lines sorted ascending by timestamp after finalize
    let stamps: Vec<u64> = doc.lines.iter().map(|l| l.timestamp).collect();
    assert_eq!(stamps, vec![100, 300, 500]);
    assert_eq!(doc.lines[0].text, "First words");
    assert_eq!(doc.lines[1].part_id, Some("ghost".to_string()));
    // the ghost part reference dangles; lookup degrades to None
    assert!(doc.get_part("ghost").is_none());
}

#[test]
fn test_sort_stability() {
    // input order 5.0, 1.0, 3.0 sorts to 1.0, 3.0, 5.0; ties keep input order
    let src = "[00:05.00]c\n[00:01.00]a\n[00:03.00]b\n[00:03.00]b2\n";
    let doc = LrxFile::parse(src).unwrap();
    let texts: Vec<&str> = doc.lines.iter().map(|l| l.text.as_str()).collect();
    assert_eq!(texts, vec!["a", "b", "b2", "c"]);
    let stamps: Vec<u64> = doc.lines.iter().map(|l| l.timestamp).collect();
    assert_eq!(stamps, vec![100, 300, 300, 500]);
}

#[test]
fn test_global_colors() {
    let src = "[color:#112233]\n[background_color:#445566]\n";
    let doc = LrxFile::parse(src).unwrap();
    assert_eq!(doc.color, Some(Rgb { r: 0x11, g: 0x22, b: 0x33 }));
    assert_eq!(doc.background_color, Some(Rgb { r: 0x44, g: 0x55, b: 0x66 }));
    // the raw tags are retained in the metadata too
    assert_eq!(doc.meta_get("color"), Some(&"#112233".to_string()));
    assert_eq!(doc.meta_get("background_color"), Some(&"#445566".to_string()));
}

#[test]
fn test_parse_errors() {
    let err = LrxFile::parse("[ok:fine]\n[a[b]]\n").unwrap_err();
    assert_eq!(err.kind, ParseErrorKind::NestedBrackets);
    assert_eq!(err.line, 2);
    assert_eq!(err.text, "[a[b]]");

    let err = LrxFile::parse("[abc").unwrap_err();
    assert_eq!(err.kind, ParseErrorKind::UnclosedBracket);
    assert_eq!(err.line, 1);

    let err = LrxFile::parse("[a]]x").unwrap_err();
    assert_eq!(err.kind, ParseErrorKind::UnmatchedBracket);

    let err = LrxFile::parse("[movie.x:name=Y]").unwrap_err();
    assert_eq!(err.kind, ParseErrorKind::UnknownCategory);

    let err = LrxFile::parse("[track.x:speed=9]").unwrap_err();
    assert_eq!(err.kind, ParseErrorKind::UnknownProperty);

    let err = LrxFile::parse("[part.x:shape=round]").unwrap_err();
    assert_eq!(err.kind, ParseErrorKind::UnknownProperty);

    let err = LrxFile::parse("[track.x:name]").unwrap_err();
    assert_eq!(err.kind, ParseErrorKind::InvalidDotNotation);

    let err = LrxFile::parse("[track.x:volume=loud]").unwrap_err();
    assert_eq!(err.kind, ParseErrorKind::InvalidVolume);

    let err = LrxFile::parse("[part.x:color=red]").unwrap_err();
    assert_eq!(err.kind, ParseErrorKind::InvalidColor);

    let err = LrxFile::parse("[color:FFFFFF]").unwrap_err();
    assert_eq!(err.kind, ParseErrorKind::InvalidColor);
}

#[test]
fn test_skipped_lines() {
    // blank lines, comments and bracketless lines are ignored
    let src = "\n   \n# comment\nplain text line\n[ti:x]\n";
    let doc = LrxFile::parse(src).unwrap();
    assert_eq!(doc.metadata.len(), 1);
    assert_eq!(doc.lines.len(), 0);
}

#[test]
fn test_metadata_replaces() {
    let src = "[ti:One]\n[ti:Two]\n";
    let doc = LrxFile::parse(src).unwrap();
    assert_eq!(doc.metadata.len(), 1);
    assert_eq!(doc.meta_get("ti"), Some(&"Two".to_string()));
}

#[test]
fn test_round_trip() {
    let src = "\
[ti:My Song]
[ar:Artist]
[color:#101010]
[track.vocals:name=Vocals]
[track.vocals:source=vocals.flac]
[track.vocals:volume=0.85]
[track.band:name=Band]
[track.band:source=band.flac]
[track.band:volume=1]
[part.lead:name=Lead]
[part.lead:color=#FF0000]
[part.back:name=Backing]
[part.back:color=#00FF00]
[part.back:background_color=#000033]
[00:01.00][lead]First
[00:03.00]Second
[00:03.00][back]Second again
[01:30.50]Last
";
    let doc = LrxFile::parse(src).unwrap();
    let out = doc.to_string();
    let doc2 = LrxFile::parse(&out).unwrap();
    assert_eq!(doc, doc2);
    // and serialization is stable from then on
    assert_eq!(out, doc2.to_string());
}

#[test]
fn test_volume_values() {
    let doc = LrxFile::parse("[track.a:volume=0.805]\n").unwrap();
    assert_eq!(doc.get_track("a").unwrap().volume, 805);
    let doc = LrxFile::parse("[track.a:volume=1.0]\n").unwrap();
    assert_eq!(doc.get_track("a").unwrap().volume, 1000);
    let doc = LrxFile::parse("[track.a:volume=0]\n").unwrap();
    assert_eq!(doc.get_track("a").unwrap().volume, 0);
    let doc = LrxFile::parse("[track.a:volume=.5]\n").unwrap();
    assert_eq!(doc.get_track("a").unwrap().volume, 500);
    assert!(LrxFile::parse("[track.a:volume=.]\n").is_err());
    assert!(LrxFile::parse("[track.a:volume=1.2345]\n").is_err());
}

#[test]
fn test_default_track_and_part() {
    // first mention creates the track and part with default values
    let doc = LrxFile::parse("[track.a:name=A]\n[part.p:name=P]\n").unwrap();
    let t = doc.get_track("a").unwrap();
    assert_eq!(t.volume, 1000);
    assert_eq!(t.source, "");
    let p = doc.get_part("p").unwrap();
    assert_eq!(p.color, Rgb { r: 255, g: 255, b: 255 });
    assert_eq!(p.background_color, None);
}

#[test]
fn test_format_time() {
    assert_eq!(tanukioke::timestamp::format_time(0), "00:00");
    assert_eq!(tanukioke::timestamp::format_time(211), "03:31");
    assert_eq!(tanukioke::timestamp::format_time(3600), "60:00");
}

#[test]
fn test_round_trip_empty_blocks() {
    // a document with lines only, and one with metadata only
    let doc = LrxFile::parse("[00:01.00]solo\n").unwrap();
    assert_eq!(LrxFile::parse(&doc.to_string()).unwrap(), doc);
    let doc = LrxFile::parse("[ti:x]").unwrap();
    assert_eq!(LrxFile::parse(&doc.to_string()).unwrap(), doc);
    let doc = LrxFile::parse("").unwrap();
    assert_eq!(LrxFile::parse(&doc.to_string()).unwrap(), doc);
}
