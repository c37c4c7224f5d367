use tanukioke::color::Rgb;
use tanukioke::document::LrxFile;
use tanukioke::library::{song_metadata_of, song_title};
use tanukioke::style::{default_bg_color, default_fg_color, line_color};

#[test]
fn test_song_title() {
    assert_eq!(song_title("/path/to/My Song"), "My Song");
}

#[test]
fn test_song_title_edges() {
    assert_eq!(song_title("My Song"), "My Song");
    assert_eq!(song_title("/path/to/"), "Unknown");
    assert_eq!(song_title(""), "Unknown");
}

#[test]
fn test_song_metadata() {
    let doc = LrxFile::parse("[ar:The Band]\n[al:The Album]\n[ti:The Title]\n").unwrap();
    let m = song_metadata_of(&doc);
    assert_eq!(m.artist, "The Band");
    assert_eq!(m.album, "The Album");
    assert_eq!(m.title, "The Title");

    let empty = LrxFile::parse("").unwrap();
    let m = song_metadata_of(&empty);
    assert_eq!(m.artist, "");
    assert_eq!(m.title, "");
}

#[test]
fn test_defaults() {
    assert_eq!(default_fg_color(), "#FFFFFF");
    assert_eq!(default_bg_color(), None);
}

#[test]
fn test_line_color_fallbacks() {
    let fallback = Rgb { r: 1, g: 2, b: 3 };
    let doc = LrxFile::parse(
        "[color:#101010]\n[part.lead:color=#FF0000]\n[00:01.00][lead]a\n[00:02.00][gone]b\n[00:03.00]c\n",
    )
    .unwrap();
    // the part's own color wins
    assert_eq!(line_color(&doc, &doc.lines[0], fallback), Rgb { r: 255, g: 0, b: 0 });
    // a dangling part falls back to the document color, never an error
    assert_eq!(line_color(&doc, &doc.lines[1], fallback), Rgb { r: 0x10, g: 0x10, b: 0x10 });
    // no part: the document color
    assert_eq!(line_color(&doc, &doc.lines[2], fallback), Rgb { r: 0x10, g: 0x10, b: 0x10 });
    // no document color either: the configured fallback
    let plain = LrxFile::parse("[00:01.00]a\n").unwrap();
    assert_eq!(line_color(&plain, &plain.lines[0], fallback), fallback);
}
