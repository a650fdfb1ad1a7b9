//! Colours of the tree view: the category of an entry, decided by its kind
//! and the extension of its name, and the escape sequences that paint it.

use owo_colors::{AnsiColors, OwoColorize};
use vstd::prelude::*;
use vstd::string::is_ascii;

verus! {

/// The byte that separates a name from its extension: `.`.
pub const DOT: u8 = 0x2e;

/// The groups of entries that the tree view tells apart by colour.
#[derive(Clone, Copy, Debug, PartialEq, Eq, Structural)]
pub enum Category {
    Directory,
    Source,
    Document,
    Data,
    Image,
    Plain,
}

/// The foreground colours in use.
#[derive(Clone, Copy, Debug, PartialEq, Eq, Structural)]
pub enum Tint {
    Red,
    White,
    BrightGreen,
    BrightYellow,
    BrightBlue,
    BrightMagenta,
    BrightCyan,
}

/// The index of the last dot in a name, or -1 where it has none.
pub open spec fn last_dot(name: Seq<u8>) -> int
    decreases name.len(),
{
    if name.len() == 0 {
        -1
    } else if name.last() == DOT {
        name.len() - 1
    } else {
        last_dot(name.drop_last())
    }
}

/// The extension of a name: what follows its last dot. A name without a
/// dot, or whose only dot comes first, has the empty extension.
pub open spec fn extension_of(name: Seq<u8>) -> Seq<u8> {
    if last_dot(name) <= 0 {
        Seq::empty()
    } else {
        name.skip(last_dot(name) + 1)
    }
}

/// The bytes of a word of ASCII characters.
pub open spec fn ascii_bytes(word: Seq<char>) -> Seq<u8> {
    Seq::new(word.len(), |i: int| word[i] as u8)
}

pub open spec fn is_source_extension(x: Seq<u8>) -> bool {
    ||| x == ascii_bytes("rs"@)
    ||| x == ascii_bytes("py"@)
    ||| x == ascii_bytes("js"@)
    ||| x == ascii_bytes("ts"@)
    ||| x == ascii_bytes("go"@)
    ||| x == ascii_bytes("cpp"@)
    ||| x == ascii_bytes("c"@)
    ||| x == ascii_bytes("java"@)
}

pub open spec fn is_document_extension(x: Seq<u8>) -> bool {
    ||| x == ascii_bytes("txt"@)
    ||| x == ascii_bytes("md"@)
    ||| x == ascii_bytes("readme"@)
}

pub open spec fn is_data_extension(x: Seq<u8>) -> bool {
    ||| x == ascii_bytes("json"@)
    ||| x == ascii_bytes("yaml"@)
    ||| x == ascii_bytes("yml"@)
    ||| x == ascii_bytes("toml"@)
    ||| x == ascii_bytes("xml"@)
}

pub open spec fn is_image_extension(x: Seq<u8>) -> bool {
    ||| x == ascii_bytes("png"@)
    ||| x == ascii_bytes("jpg"@)
    ||| x == ascii_bytes("jpeg"@)
    ||| x == ascii_bytes("gif"@)
    ||| x == ascii_bytes("svg"@)
    ||| x == ascii_bytes("webp"@)
}

/// The category of an entry: a function of its kind and of the extension of
/// its name, case-sensitive, and of nothing else.
pub open spec fn category_of(is_dir: bool, name: Seq<u8>) -> Category {
    let x = extension_of(name);
    if is_dir {
        Category::Directory
    } else if is_source_extension(x) {
        Category::Source
    } else if is_document_extension(x) {
        Category::Document
    } else if is_data_extension(x) {
        Category::Data
    } else if is_image_extension(x) {
        Category::Image
    } else {
        Category::Plain
    }
}

/// Where the extension of a name starts: one past its last dot, or the
/// length of the name where it has no extension.
fn extension_start(name: &Vec<u8>) -> (start: usize)
    ensures
        start <= name.len(),
        name@.skip(start as int) == extension_of(name@),
{
    let mut i: usize = name.len();
    assert(name@.take(i as int) =~= name@);
    while i > 0 && name[i - 1] != DOT
        invariant
            i <= name.len(),
            last_dot(name@) == last_dot(name@.take(i as int)),
        decreases i,
    {
        proof {
            assert(name@.take(i as int).drop_last() =~= name@.take(i - 1));
        }
        i -= 1;
    }
    proof {
        if i == 0 {
            assert(name@.take(0).len() == 0);
        }
        assert(name@.skip(name.len() as int) =~= Seq::<u8>::empty());
    }
    if i <= 1 {
        name.len()
    } else {
        i
    }
}

/// Whether the bytes of `name` from `start` on spell `word`.
fn tail_is(name: &Vec<u8>, start: usize, word: &str) -> (same: bool)
    requires
        start <= name.len(),
        is_ascii(word),
    ensures
        same == (name@.skip(start as int) == ascii_bytes(word@)),
{
    broadcast use vstd::string::is_ascii_spec_bytes;

    let bytes = word.as_bytes();
    assert(bytes@ =~= ascii_bytes(word@));
    if name.len() - start != bytes.len() {
        return false;
    }
    let mut i: usize = 0;
    while i < bytes.len()
        invariant
            i <= bytes.len(),
            start + bytes.len() == name.len(),
            bytes@ == ascii_bytes(word@),
            forall|j: int| 0 <= j < i ==> name@[start + j] == bytes@[j],
        decreases bytes.len() - i,
    {
        if name[start + i] != bytes[i] {
            assert(name@.skip(start as int)[i as int] != bytes@[i as int]);
            return false;
        }
        i += 1;
    }
    assert(name@.skip(start as int) =~= bytes@);
    true
}

fn is_source(name: &Vec<u8>, start: usize) -> (yes: bool)
    requires
        start <= name.len(),
    ensures
        yes == is_source_extension(name@.skip(start as int)),
{
    proof {
        reveal_strlit("rs");
        reveal_strlit("py");
        reveal_strlit("js");
        reveal_strlit("ts");
        reveal_strlit("go");
        reveal_strlit("cpp");
        reveal_strlit("c");
        reveal_strlit("java");
    }
    tail_is(name, start, "rs") || tail_is(name, start, "py") || tail_is(name, start, "js")
        || tail_is(name, start, "ts") || tail_is(name, start, "go") || tail_is(name, start, "cpp")
        || tail_is(name, start, "c") || tail_is(name, start, "java")
}

fn is_document(name: &Vec<u8>, start: usize) -> (yes: bool)
    requires
        start <= name.len(),
    ensures
        yes == is_document_extension(name@.skip(start as int)),
{
    proof {
        reveal_strlit("txt");
        reveal_strlit("md");
        reveal_strlit("readme");
    }
    tail_is(name, start, "txt") || tail_is(name, start, "md") || tail_is(name, start, "readme")
}

fn is_data(name: &Vec<u8>, start: usize) -> (yes: bool)
    requires
        start <= name.len(),
    ensures
        yes == is_data_extension(name@.skip(start as int)),
{
    proof {
        reveal_strlit("json");
        reveal_strlit("yaml");
        reveal_strlit("yml");
        reveal_strlit("toml");
        reveal_strlit("xml");
    }
    tail_is(name, start, "json") || tail_is(name, start, "yaml") || tail_is(name, start, "yml")
        || tail_is(name, start, "toml") || tail_is(name, start, "xml")
}

fn is_image(name: &Vec<u8>, start: usize) -> (yes: bool)
    requires
        start <= name.len(),
    ensures
        yes == is_image_extension(name@.skip(start as int)),
{
    proof {
        reveal_strlit("png");
        reveal_strlit("jpg");
        reveal_strlit("jpeg");
        reveal_strlit("gif");
        reveal_strlit("svg");
        reveal_strlit("webp");
    }
    tail_is(name, start, "png") || tail_is(name, start, "jpg") || tail_is(name, start, "jpeg")
        || tail_is(name, start, "gif") || tail_is(name, start, "svg") || tail_is(
        name,
        start,
        "webp",
    )
}

/// The category of an entry with this kind and this name.
pub fn category(is_dir: bool, name: &Vec<u8>) -> (cat: Category)
    ensures
        cat == category_of(is_dir, name@),
{
    if is_dir {
        return Category::Directory;
    }
    let start = extension_start(name);
    if is_source(name, start) {
        Category::Source
    } else if is_document(name, start) {
        Category::Document
    } else if is_data(name, start) {
        Category::Data
    } else if is_image(name, start) {
        Category::Image
    } else {
        Category::Plain
    }
}

/// The escape sequence that switches the foreground to a colour.
pub open spec fn tint_code(tint: Tint) -> Seq<char> {
    match tint {
        Tint::Red => "\x1b[31m"@,
        Tint::White => "\x1b[37m"@,
        Tint::BrightGreen => "\x1b[92m"@,
        Tint::BrightYellow => "\x1b[93m"@,
        Tint::BrightBlue => "\x1b[94m"@,
        Tint::BrightMagenta => "\x1b[95m"@,
        Tint::BrightCyan => "\x1b[96m"@,
    }
}

/// The escape sequence that switches the foreground back to the default.
pub open spec fn tint_reset() -> Seq<char> {
    "\x1b[39m"@
}

/// The escape sequence that switches bold on.
pub open spec fn bold_code() -> Seq<char> {
    "\x1b[1m"@
}

/// The escape sequence that switches every style off.
pub open spec fn style_reset() -> Seq<char> {
    "\x1b[0m"@
}

/// `OwoColorize::color` of owo-colors with one of its `AnsiColors`, written
/// out: the code of the colour, the text unchanged, the code that resets
/// the foreground.
#[verifier::external_body]
fn tinted(text: &str, tint: Tint) -> (painted: String)
    ensures
        painted@ == tint_code(tint) + text@ + tint_reset(),
{
    let color = match tint {
        Tint::Red => AnsiColors::Red,
        Tint::White => AnsiColors::White,
        Tint::BrightGreen => AnsiColors::BrightGreen,
        Tint::BrightYellow => AnsiColors::BrightYellow,
        Tint::BrightBlue => AnsiColors::BrightBlue,
        Tint::BrightMagenta => AnsiColors::BrightMagenta,
        Tint::BrightCyan => AnsiColors::BrightCyan,
    };
    format!("{}", text.color(color))
}

/// `OwoColorize::bold` of owo-colors, written out: the code for bold, the
/// text unchanged, the code that resets all styles.
#[verifier::external_body]
fn emboldened(text: &str) -> (painted: String)
    ensures
        painted@ == bold_code() + text@ + style_reset(),
{
    format!("{}", text.bold())
}

/// The colour of a category.
pub open spec fn tint_of(cat: Category) -> Tint {
    match cat {
        Category::Directory => Tint::BrightBlue,
        Category::Source => Tint::BrightGreen,
        Category::Document => Tint::BrightYellow,
        Category::Data => Tint::BrightCyan,
        Category::Image => Tint::BrightMagenta,
        Category::Plain => Tint::White,
    }
}

/// A text in one colour.
pub open spec fn tinted_text(text: Seq<char>, tint: Tint) -> Seq<char> {
    tint_code(tint) + text + tint_reset()
}

/// A text painted for its category: in the colour of the category, and
/// bold on top of that for a directory.
pub open spec fn painted_text(text: Seq<char>, cat: Category) -> Seq<char> {
    if cat == Category::Directory {
        bold_code() + tinted_text(text, tint_of(cat)) + style_reset()
    } else {
        tinted_text(text, tint_of(cat))
    }
}

pub fn tint(cat: Category) -> (tint: Tint)
    ensures
        tint == tint_of(cat),
{
    match cat {
        Category::Directory => Tint::BrightBlue,
        Category::Source => Tint::BrightGreen,
        Category::Document => Tint::BrightYellow,
        Category::Data => Tint::BrightCyan,
        Category::Image => Tint::BrightMagenta,
        Category::Plain => Tint::White,
    }
}

/// The text in one colour.
pub fn colored(text: &str, tint: Tint) -> (painted: String)
    ensures
        painted@ == tinted_text(text@, tint),
{
    tinted(text, tint)
}

/// The text painted for a category.
pub fn paint(text: &str, cat: Category) -> (painted: String)
    ensures
        painted@ == painted_text(text@, cat),
{
    let inner = tinted(text, tint(cat));
    match cat {
        Category::Directory => emboldened(inner.as_str()),
        _ => inner,
    }
}

} // verus!
