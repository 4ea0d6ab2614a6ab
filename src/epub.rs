//! The directory layout of a book and the fixed files of an EPUB container.
use crate::text::{chars_of, sanitize_filename, sanitized};
use vstd::prelude::*;
use vstd::string::*;
use vstd::utf8::*;

verus! {

/// Most bytes that a file name component may hold.
pub const MAX_NAME_BYTES: usize = 255;

/// The exact content of the `mimetype` file of an EPUB container, with no
/// line break after it.
pub const MIMETYPE: &'static str = "application/epub+zip";

/// The content of `META-INF/container.xml`: the package document is
/// `OEBPS/content.opf`.
pub const CONTAINER_XML: &'static str = "<?xml version=\"1.0\" encoding=\"UTF-8\"?>
            <container xmlns=\"urn:oasis:names:tc:opendocument:xmlns:container\" version=\"1.0\">
            <rootfiles>
            <rootfile full-path=\"OEBPS/content.opf\" media-type=\"application/oebps-package+xml\"/>
            </rootfiles>
            </container>
            ";

/// The last character boundary of `b` at or below `max`.
pub open spec fn cut_point(b: Seq<u8>, max: int) -> int
    decreases max,
{
    if max <= 0 {
        0
    } else if is_char_boundary(b, max) {
        max
    } else {
        cut_point(b, max - 1)
    }
}

/// The longest prefix of `s` whose UTF-8 encoding fits in `max` bytes.
pub open spec fn fit_bytes(s: Seq<char>, max: int) -> Seq<char> {
    let b = encode_utf8(s);
    if b.len() <= max {
        s
    } else {
        decode_utf8(b.subrange(0, cut_point(b, max)))
    }
}

proof fn lemma_encode_concat(a: Seq<char>, b: Seq<char>)
    ensures
        encode_utf8(a + b) == encode_utf8(a) + encode_utf8(b),
    decreases a.len(),
{
    if a.len() == 0 {
        assert(a + b =~= b);
        assert(encode_utf8(a) + encode_utf8(b) =~= encode_utf8(b));
    } else {
        lemma_encode_concat(a.drop_first(), b);
        assert((a + b).drop_first() =~= a.drop_first() + b);
        assert((a + b)[0] == a[0]);
        assert(encode_utf8(a + b) =~= encode_utf8(a) + encode_utf8(b));
    }
}

proof fn lemma_cut_point(b: Seq<u8>, max: int)
    requires
        valid_utf8(b),
        0 <= max <= b.len(),
    ensures
        0 <= cut_point(b, max) <= max,
        is_char_boundary(b, cut_point(b, max)),
        forall|j: int| cut_point(b, max) < j <= max ==> !is_char_boundary(b, j),
    decreases max,
{
    if max > 0 && !is_char_boundary(b, max) {
        lemma_cut_point(b, max - 1);
    }
}

/// The fitted text is made of whole characters: it is a prefix of the
/// text, and its encoding is a prefix of the text's encoding, no longer
/// than `max` bytes.
pub proof fn lemma_fit_keeps_whole_chars(s: Seq<char>, max: int)
    requires
        0 <= max,
    ensures
        fit_bytes(s, max) == s.take(fit_bytes(s, max).len() as int),
        encode_utf8(fit_bytes(s, max)) == encode_utf8(s).subrange(
            0,
            encode_utf8(fit_bytes(s, max)).len() as int,
        ),
        encode_utf8(fit_bytes(s, max)).len() <= max,
        valid_utf8(encode_utf8(fit_bytes(s, max))),
{
    let b = encode_utf8(s);
    encode_utf8_valid_utf8(s);
    encode_utf8_valid_utf8(fit_bytes(s, max));
    if b.len() <= max {
        assert(s.take(s.len() as int) =~= s);
        assert(b.subrange(0, b.len() as int) =~= b);
    } else {
        let c = cut_point(b, max);
        lemma_cut_point(b, max);
        valid_utf8_split(b, c);
        decode_utf8_split(b, c);
        encode_utf8_decode_utf8(s);
        decode_utf8_encode_utf8(b.subrange(0, c));
        let f = decode_utf8(b.subrange(0, c));
        let rest = decode_utf8(b.subrange(c, b.len() as int));
        assert(s == f + rest);
        assert(f =~= s.take(f.len() as int));
    }
}

/// Truncate a text to at most `max_bytes` bytes of UTF-8 without splitting
/// a character: the cut goes back to the nearest character boundary.
pub fn truncate_utf8_by_byte(s: &str, max_bytes: usize) -> (r: &str)
    ensures
        r@ == fit_bytes(s@, max_bytes as int),
{
    let ghost b = s.spec_bytes();
    proof {
        encode_utf8_valid_utf8(s@);
    }
    if s.as_bytes().len() <= max_bytes {
        return s;
    }
    let mut end = max_bytes;
    while end > 0 && !s.is_char_boundary(end)
        invariant
            b == s.spec_bytes(),
            end <= max_bytes < b.len(),
            cut_point(b, max_bytes as int) == cut_point(b, end as int),
        decreases end,
    {
        end -= 1;
    }
    let (head, _) = s.split_at(end);
    proof {
        encode_utf8_decode_utf8(head@);
    }
    head
}


/// Bytes left for the title once the book id, a space and the two
/// parentheses are counted; none when the id alone takes them all.
pub open spec fn title_budget(bookid: Seq<char>) -> int {
    let n = encode_utf8(bookid).len();
    if n + 3 >= MAX_NAME_BYTES {
        0
    } else {
        MAX_NAME_BYTES - 3 - n
    }
}

/// The name of the book's directory: `"<title> (<id>)"`, or `"(<id>)"`
/// when nothing is left of the title.
pub open spec fn root_name_of(title: Seq<char>, bookid: Seq<char>) -> Seq<char> {
    name_for(sanitized(title), bookid)
}

/// The directory name for a title that is already sanitized.
pub open spec fn name_for(clean: Seq<char>, bookid: Seq<char>) -> Seq<char> {
    if clean.len() > 0 {
        fit_bytes(clean, title_budget(bookid)) + seq![' ', '('] + bookid + seq![')']
    } else {
        seq!['('] + bookid + seq![')']
    }
}

/// The directory name of a book takes at most 255 bytes, wherever the
/// book id leaves room for the space and the two parentheses.
pub proof fn lemma_root_name_fits(title: Seq<char>, bookid: Seq<char>)
    requires
        encode_utf8(bookid).len() + 3 <= MAX_NAME_BYTES,
    ensures
        encode_utf8(root_name_of(title, bookid)).len() <= MAX_NAME_BYTES,
{
    let clean = sanitized(title);
    let t = fit_bytes(clean, title_budget(bookid));
    reveal_with_fuel(encode_utf8, 3);
    if clean.len() > 0 {
        lemma_fit_keeps_whole_chars(clean, title_budget(bookid));
        lemma_encode_concat(t, seq![' ', '(']);
        lemma_encode_concat(t + seq![' ', '('], bookid);
        lemma_encode_concat(t + seq![' ', '('] + bookid, seq![')']);
    } else {
        lemma_encode_concat(seq!['('], bookid);
        lemma_encode_concat(seq!['('] + bookid, seq![')']);
    }
}

/// The title in a directory name is a prefix of whole characters of the
/// sanitized title.
pub proof fn lemma_root_name_keeps_whole_chars(title: Seq<char>, bookid: Seq<char>)
    ensures
        sanitized(title).len() > 0 ==> ({
            let t = fit_bytes(sanitized(title), title_budget(bookid));
            &&& t == sanitized(title).take(t.len() as int)
            &&& root_name_of(title, bookid) == t + seq![' ', '('] + bookid + seq![')']
        }),
{
    if sanitized(title).len() > 0 {
        lemma_fit_keeps_whole_chars(sanitized(title), title_budget(bookid));
    }
}

/// A path followed by one more component.
pub open spec fn join_path(base: Seq<char>, name: Seq<char>) -> Seq<char> {
    if base.len() == 0 {
        name
    } else if base.last() == '/' {
        base + name
    } else {
        base + seq!['/'] + name
    }
}

/// Append a component to a path, with `/` between them.
pub fn join(base: &str, name: &str) -> (r: String)
    ensures
        r@ == join_path(base@, name@),
{
    let mut r = base.to_owned();
    if base.is_empty() {
        return name.to_owned();
    }
    let cs = chars_of(base);
    if cs[cs.len() - 1] != '/' {
        proof {
            reveal_strlit("/");
        }
        r.append("/");
    }
    r.append(name);
    r
}

/// The directory name for a sanitized title and a book id: the title cut
/// to the bytes that the id leaves, then the id in parentheses.
pub fn root_name(clean_title: &str, bookid: &str) -> (r: String)
    ensures
        r@ == name_for(clean_title@, bookid@),
{
    let n = bookid.as_bytes().len();
    let budget: usize = if n >= MAX_NAME_BYTES - 3 {
        0
    } else {
        MAX_NAME_BYTES - 3 - n
    };
    let mut name;
    if !clean_title.is_empty() {
        let t = truncate_utf8_by_byte(clean_title, budget);
        name = t.to_owned();
        proof {
            reveal_strlit(" (");
        }
        name.append(" (");
    } else {
        proof {
            reveal_strlit("(");
        }
        name = "(".to_owned();
    }
    name.append(bookid);
    proof {
        reveal_strlit(")");
    }
    name.append(")");
    name
}

/// The directory layout of one book: its root and the two fixed
/// subdirectories of an EPUB container.
pub struct EpubSkeleton {
    pub root_name: String,
    pub root: String,
    pub meta_inf: String,
    pub oebps: String,
}

impl EpubSkeleton {
    /// The layout is well formed when the paths follow from the root name.
    pub open spec fn laid_out(&self, base: Seq<char>) -> bool {
        &&& self.root@ == join_path(base, self.root_name@)
        &&& self.meta_inf@ == join_path(self.root@, "META-INF"@)
        &&& self.oebps@ == join_path(self.root@, "OEBPS"@)
    }

    /// Plan the directory of a book under `base_books_dir`, named after its
    /// sanitized title and its id.
    pub fn plan(base_books_dir: &str, title: &str, bookid: &str) -> (r: Self)
        ensures
            r.root_name@ == root_name_of(title@, bookid@),
            r.laid_out(base_books_dir@),
    {
        let clean = sanitize_filename(title);
        let name = root_name(clean.as_str(), bookid);
        proof {
            reveal_strlit("META-INF");
            reveal_strlit("OEBPS");
        }
        let root = join(base_books_dir, name.as_str());
        let meta_inf = join(root.as_str(), "META-INF");
        let oebps = join(root.as_str(), "OEBPS");
        EpubSkeleton { root_name: name, root, meta_inf, oebps }
    }

    /// Where the `mimetype` file goes: at the root.
    pub fn mimetype_path(&self) -> (r: String)
        ensures
            r@ == join_path(self.root@, "mimetype"@),
    {
        join(self.root.as_str(), "mimetype")
    }

    /// Where the container manifest goes: in `META-INF`.
    pub fn container_xml_path(&self) -> (r: String)
        ensures
            r@ == join_path(self.meta_inf@, "container.xml"@),
    {
        join(self.meta_inf.as_str(), "container.xml")
    }
}

} // verus!
