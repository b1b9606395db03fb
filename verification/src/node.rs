//! Page serving: page and file caches, pagination of long pages, the pages a
//! node answers with, and the node's identity checks.

use vstd::prelude::*;
use vstd::string::*;
use vstd::utf8::encode_utf8;

use crate::assoc::AssocList;
use crate::rns::{
    destination_hash, destination_hash_of, hex_encode, hex_lower, identity_hash, identity_hash_of,
    identity_public_key, identity_public_key_of,
};
use crate::types::{NodeConfig, NomadError};
use crate::micron::{escape_spec, heading_markers, link_markup, MicronBuilder};
use crate::text::{
    byte_len, char_width, chars_of, decimal, lemma_byte_len_concat, lemma_line_scan_no_newline,
    lemma_rfind, line_scan, lines, no_newline, parse_bounded, parse_decimal, push_char,
    push_decimal, rfind, rfind_char, string_of, string_of_range, strip_cr, utf8_width,
};

verus! {

/// Largest response a node sends in one page.
pub const MAX_RESPONSE_BYTES: usize = 350;

/// Largest page number of a paginated page.
pub const MAX_PAGES_PER_FILE: usize = 200;

/// Byte budget of one chunk of a paginated page.
pub const CHUNK_TARGET_BYTES: usize = 220;

/// `s` ends with `.mu`.
pub open spec fn has_mu_suffix(s: Seq<char>) -> bool {
    s.len() >= 3 && s[s.len() - 3] == '.' && s[s.len() - 2] == 'm' && s[s.len() - 1] == 'u'
}

/// `s` without a trailing `.mu`.
pub open spec fn strip_mu(s: Seq<char>) -> Seq<char> {
    if has_mu_suffix(s) {
        s.take(s.len() - 3)
    } else {
        s
    }
}

/// The path of page `n` of the paginated page `base`: page 1 (and 0) is
/// `base` itself, page `n` is `<base without .mu>/<n>.mu`.
pub open spec fn paginate_spec(base: Seq<char>, n: nat) -> Seq<char> {
    if n <= 1 {
        base
    } else {
        strip_mu(base) + "/"@ + decimal(n) + ".mu"@
    }
}

/// What `base_path_from_paginated` answers for `path`: the base page and the
/// page number when `path` names page 2 to `MAX_PAGES_PER_FILE` of a
/// paginated page, else `path` itself and no number.
pub open spec fn base_path_spec(path: Seq<char>) -> (Seq<char>, Option<nat>) {
    let stem = strip_mu(path);
    match rfind(stem, '/') {
        Some(i) => match parse_bounded(stem.subrange(i + 1, stem.len() as int), usize::MAX as nat) {
            Some(n) => if 2 <= n <= MAX_PAGES_PER_FILE {
                (stem.take(i) + ".mu"@, Some(n))
            } else {
                (path, None)
            },
            None => (path, None),
        },
        None => (path, None),
    }
}

/// The length of `v` without a trailing `.mu`.
fn stem_len(v: &[char]) -> (n: usize)
    ensures
        n as int == strip_mu(v@).len(),
        strip_mu(v@) == v@.take(n as int),
{
    let len = v.len();
    if len >= 3 && v[len - 3] == '.' && v[len - 2] == 'm' && v[len - 1] == 'u' {
        len - 3
    } else {
        assert(v@.take(len as int) =~= v@);
        len
    }
}

/// The path of page `page_num` of the paginated page `base_path`.
pub fn paginate_path(base_path: &str, page_num: usize) -> (p: String)
    ensures
        p@ == paginate_spec(base_path@, page_num as nat),
{
    if page_num <= 1 {
        return String::from_str(base_path);
    }
    let chars = chars_of(base_path);
    let n = stem_len(&chars);
    let mut p = string_of_range(&chars, 0, n);
    assert(chars@.subrange(0, n as int) =~= chars@.take(n as int));
    p.append("/");
    push_decimal(&mut p, page_num as u64);
    p.append(".mu");
    p
}

/// Splits a paginated page path into its base page and page number.
pub fn base_path_from_paginated(path: &str) -> (r: (String, Option<usize>))
    ensures
        r.0@ == base_path_spec(path@).0,
        match base_path_spec(path@).1 {
            Some(n) => r.1 == Some(n as usize),
            None => r.1 is None,
        },
{
    let chars = chars_of(path);
    let n = stem_len(&chars);
    let ghost stem = strip_mu(path@);
    let stem_chars = chars_of(string_of_range(&chars, 0, n).as_str());
    assert(stem_chars@ =~= stem);
    proof { lemma_rfind(stem, '/'); }
    if let Some(idx) = rfind_char(&stem_chars, '/') {
        let page_chars = chars_of(string_of_range(&stem_chars, idx + 1, n).as_str());
        if let Some(page_num) = parse_decimal(&page_chars, usize::MAX as u64) {
            if 2 <= page_num && page_num <= MAX_PAGES_PER_FILE as u64 {
                let mut base = string_of_range(&stem_chars, 0, idx);
                assert(stem_chars@.subrange(0, idx as int) =~= stem.take(idx as int));
                base.append(".mu");
                return (base, Some(page_num as usize));
            }
        }
    }
    (String::from_str(path), None)
}

/// One step of chunking: `line` is added to the chunk being built, which is
/// closed first when it is not empty and the line would take it past
/// `target` bytes (counting the newline between them).
pub open spec fn chunk_step(state: (Seq<Seq<char>>, Seq<char>), line: Seq<char>, target: nat) -> (Seq<Seq<char>>, Seq<char>) {
    let (chunks, cur) = state;
    let (chunks1, cur1) = if byte_len(cur) + byte_len(line) + 1 > target && cur.len() > 0 {
        (chunks.push(cur), Seq::<char>::empty())
    } else {
        (chunks, cur)
    };
    let cur2 = if cur1.len() > 0 { cur1.push('\n') } else { cur1 };
    (chunks1, cur2 + line)
}

/// Chunking a sequence of lines: the closed chunks and the open one.
pub open spec fn chunk_scan(ls: Seq<Seq<char>>, target: nat) -> (Seq<Seq<char>>, Seq<char>)
    decreases ls.len(),
{
    if ls.len() == 0 {
        (Seq::empty(), Seq::empty())
    } else {
        chunk_step(chunk_scan(ls.drop_last(), target), ls.last(), target)
    }
}

/// The chunks `split_into_chunks` makes of `content`: its lines grouped,
/// in order, into newline-joined chunks; one empty chunk when there is
/// nothing else.
pub open spec fn chunks_spec(content: Seq<char>, target: nat) -> Seq<Seq<char>> {
    let (chunks, cur) = chunk_scan(lines(content), target);
    let all = if cur.len() > 0 { chunks.push(cur) } else { chunks };
    if all.len() == 0 {
        seq![Seq::<char>::empty()]
    } else {
        all
    }
}

/// A chunk that joins several lines fits in `target` bytes; only a chunk
/// made of one line may be longer.
pub open spec fn chunk_fits(chunk: Seq<char>, target: nat) -> bool {
    byte_len(chunk) <= target || no_newline(chunk)
}

/// The views of a vector of strings.
pub open spec fn string_views(v: Seq<String>) -> Seq<Seq<char>> {
    v.map_values(|s: String| s@)
}

/// Adds one line to the chunking state (the executable `chunk_step`).
fn push_line(
    chunks: &mut Vec<String>,
    cur: &mut String,
    cur_len: &mut usize,
    line: &[char],
    line_len: usize,
    target: usize,
)
    requires
        *old(cur_len) == byte_len(old(cur)@),
        line_len == byte_len(line@),
        byte_len(old(cur)@) + byte_len(line@) < usize::MAX,
        no_newline(line@),
        forall|i: int| 0 <= i < old(chunks)@.len() ==> chunk_fits(#[trigger] old(chunks)@[i]@, target as nat),
        !no_newline(old(cur)@) ==> byte_len(old(cur)@) <= target,
    ensures
        (string_views(final(chunks)@), final(cur)@) == chunk_step((string_views(old(chunks)@), old(cur)@), line@, target as nat),
        *final(cur_len) == byte_len(final(cur)@),
        byte_len(final(cur)@) <= byte_len(old(cur)@) + byte_len(line@) + 1,
        forall|i: int| 0 <= i < final(chunks)@.len() ==> chunk_fits(#[trigger] final(chunks)@[i]@, target as nat),
        !no_newline(final(cur)@) ==> byte_len(final(cur)@) <= target,
{
    let ghost old_cur = cur@;
    if *cur_len + line_len >= target && *cur_len > 0 {
        let mut closed = String::new();
        std::mem::swap(cur, &mut closed);
        chunks.push(closed);
        *cur_len = 0;
        proof {
            assert(string_views(chunks@) =~= string_views(old(chunks)@).push(old_cur));
        }
    } else {
        proof {
            if *cur_len == 0 {
                assert(old_cur.len() == 0) by {
                    if old_cur.len() > 0 {
                        assert(byte_len(old_cur) >= utf8_width(old_cur.last()));
                    }
                }
            }
        }
    }
    let ghost mid = cur@;
    if *cur_len > 0 {
        push_char(cur, '\n');
        *cur_len = *cur_len + 1;
        proof {
            assert(cur@.drop_last() =~= mid);
        }
    } else {
        proof {
            if mid.len() > 0 {
                assert(byte_len(mid) >= utf8_width(mid.last()));
            }
        }
    }
    let ghost mid2 = cur@;
    let text = string_of(line);
    cur.append(text.as_str());
    *cur_len = *cur_len + line_len;
    proof {
        lemma_byte_len_concat(mid2, line@);
        if !no_newline(cur@) {
            if mid2.len() == 0 {
                assert(cur@ =~= line@);
            } else {
                assert(*cur_len <= target) by {
                    if byte_len(old_cur) + byte_len(line@) + 1 > target && old_cur.len() > 0 {
                        assert(mid.len() == 0);
                    }
                }
            }
        }
        assert(string_views(chunks@).len() == chunks@.len());
    }
}

/// Splits `content` at line boundaries into chunks of about `target_bytes`
/// bytes each.
pub fn split_into_chunks(content: &str, target_bytes: usize) -> (chunks: Vec<String>)
    requires
        byte_len(content@) < usize::MAX,
    ensures
        string_views(chunks@) == chunks_spec(content@, target_bytes as nat),
        chunks@.len() >= 1,
        forall|i: int| 0 <= i < chunks@.len() ==> chunk_fits(#[trigger] chunks@[i]@, target_bytes as nat),
{
    let chars = chars_of(content);
    let mut chunks: Vec<String> = Vec::new();
    let mut cur = String::new();
    let mut cur_len: usize = 0;
    let mut line: Vec<char> = Vec::new();
    let mut line_len: usize = 0;
    let mut i: usize = 0;
    proof {
        assert(string_views(chunks@) =~= Seq::<Seq<char>>::empty());
        assert(chars@.take(0) =~= Seq::<char>::empty());
    }
    while i < chars.len()
        invariant
            i <= chars@.len(),
            chars@ == content@,
            byte_len(content@) < usize::MAX,
            line_scan(chars@.take(i as int)).1 == line@,
            (string_views(chunks@), cur@) == chunk_scan(line_scan(chars@.take(i as int)).0, target_bytes as nat),
            cur_len == byte_len(cur@),
            line_len == byte_len(line@),
            byte_len(cur@) + byte_len(line@) <= byte_len(chars@.take(i as int)),
            forall|k: int| 0 <= k < chunks@.len() ==> chunk_fits(#[trigger] chunks@[k]@, target_bytes as nat),
            !no_newline(cur@) ==> byte_len(cur@) <= target_bytes,
        decreases chars@.len() - i,
    {
        let c = chars[i];
        let ghost prefix = chars@.take(i as int);
        let ghost next = chars@.take(i + 1);
        proof {
            assert(next.drop_last() =~= prefix);
            assert(next.last() == c);
            assert(byte_len(next) == byte_len(prefix) + utf8_width(c));
            crate::text::lemma_byte_len_take(content@, i + 1);
            lemma_line_scan_no_newline(prefix);
        }
        if c == '\n' {
            let mut n = line.len();
            let mut n_len = line_len;
            if n > 0 && line[n - 1] == '\r' {
                n = n - 1;
                n_len = n_len - 1;
                proof {
                    assert(line@.drop_last() =~= line@.take(n as int));
                }
            } else {
                assert(line@.take(n as int) =~= line@);
            }
            let stripped = string_of_range(&line, 0, n);
            let stripped_chars = chars_of(stripped.as_str());
            proof {
                assert(stripped_chars@ =~= strip_cr(line@));
                assert(no_newline(strip_cr(line@))) by {
                    assert forall|k: int| 0 <= k < strip_cr(line@).len() implies strip_cr(line@)[k] != '\n' by {
                        assert(strip_cr(line@)[k] == line@[k]);
                    }
                }
                if n < line@.len() {
                    assert(byte_len(line@) == byte_len(line@.drop_last()) + 1);
                }
            }
            push_line(&mut chunks, &mut cur, &mut cur_len, &stripped_chars, n_len, target_bytes);
            line = Vec::new();
            line_len = 0;
            proof {
                assert(line_scan(next).0 == line_scan(prefix).0.push(strip_cr(line_scan(prefix).1)));
                assert(line_scan(next).0.drop_last() =~= line_scan(prefix).0);
            }
            assert(byte_len(line@) == 0);
        } else {
            let ghost old_line = line@;
            line.push(c);
            line_len = line_len + char_width(c);
            assert(line@.drop_last() =~= old_line);
        }
        i = i + 1;
    }
    assert(chars@.take(chars@.len() as int) =~= chars@);
    proof {
        lemma_line_scan_no_newline(chars@);
    }
    if line.len() > 0 {
        push_line(&mut chunks, &mut cur, &mut cur_len, &line, line_len, target_bytes);
        proof {
            assert(lines(content@).drop_last() =~= line_scan(content@).0);
        }
    }
    let ghost before = string_views(chunks@);
    if cur_len > 0 {
        chunks.push(cur);
        proof {
            assert(string_views(chunks@) =~= before.push(cur@));
        }
    } else {
        proof {
            if cur@.len() > 0 {
                assert(byte_len(cur@) >= utf8_width(cur@.last()));
            }
        }
    }
    if chunks.len() == 0 {
        chunks.push(String::new());
        proof {
            assert(string_views(chunks@) =~= seq![Seq::<char>::empty()]);
        }
    }
    chunks
}

/// The navigation line element for a neighbouring page: a link when there
/// is one, else an empty line of two spaces.
pub open spec fn nav_markup(present: bool, label: Seq<char>, target: Seq<char>) -> Seq<char> {
    if present {
        link_markup(label, target)
    } else {
        "  "@ + "\n"@
    }
}

/// The markup of page `page_num` of `total_pages` holding `chunk`: the chunk,
/// and, when there are several pages, a divider, links to the previous and
/// next pages where they exist, and the page position.
pub open spec fn paginated_markup(
    chunk: Seq<char>,
    page_num: nat,
    total_pages: nat,
    base_path: Seq<char>,
    nomad_address: Seq<char>,
) -> Seq<char> {
    "#!c="@ + decimal(0) + "\n"@ + chunk + "\n"@ + (if total_pages > 1 {
        "\n"@ + "-\n"@ + "\n"@
            + nav_markup(page_num > 1, "<< Previous page"@, nomad_address + ":"@ + paginate_spec(base_path, (page_num - 1) as nat))
            + ("  Page "@ + decimal(page_num) + " of "@ + decimal(total_pages)) + "\n"@
            + nav_markup(page_num < total_pages, "Next page >>"@, nomad_address + ":"@ + paginate_spec(base_path, page_num + 1))
    } else {
        Seq::empty()
    })
}

/// The markup of the page answered for a path that has no cached page.
pub open spec fn not_found_markup(path: Seq<char>, nomad_address: Seq<char>) -> Seq<char> {
    "#!c="@ + decimal(0) + "\n"@
        + heading_markers(1) + " "@ + "404 \u{2014} Page Not Found"@ + "\n"@
        + "-\n"@
        + ("The page `"@ + escape_spec(path) + "` does not exist on this node."@) + "\n"@
        + "\n"@
        + link_markup("Back to index"@, nomad_address + ":/page/index.mu"@)
}

/// The UTF-8 bytes of a built page.
fn page_bytes(page: &MicronBuilder) -> (b: Vec<u8>)
    ensures
        b@ == encode_utf8(page@),
{
    let text = page.build();
    text.as_str().as_bytes_vec()
}

/// The page answered for `path` when the cache holds nothing for it.
pub fn build_404_page(path: &str, nomad_address: &str) -> (page: Vec<u8>)
    ensures
        page@ == encode_utf8(not_found_markup(path@, nomad_address@)),
{
    let mut page = MicronBuilder::new();
    page.cache_directive(0);
    page.heading(1, "404 \u{2014} Page Not Found");
    page.divider();
    let escaped = MicronBuilder::escape(path);
    let mut line = String::from_str("The page `");
    line.append(escaped.as_str());
    line.append("` does not exist on this node.");
    page.text_raw_line(line.as_str());
    page.blank_line();
    let mut target = String::from_str(nomad_address);
    target.append(":/page/index.mu");
    page.link("Back to index", target.as_str());
    page_bytes(&page)
}

/// Builds page `page_num` of `total_pages` of a paginated page.
pub fn build_paginated_page(
    chunk: &str,
    page_num: usize,
    total_pages: usize,
    base_path: &str,
    nomad_address: &str,
) -> (page: Vec<u8>)
    ensures
        page@ == encode_utf8(paginated_markup(chunk@, page_num as nat, total_pages as nat, base_path@, nomad_address@)),
{
    let mut page = MicronBuilder::new();
    page.cache_directive(0);
    page.text_raw_line(chunk);
    let ghost head = page@;
    if total_pages > 1 {
        page.blank_line();
        page.divider();
        page.blank_line();
        if page_num > 1 {
            let prev_link = paginate_path(base_path, page_num - 1);
            let mut target = String::from_str(nomad_address);
            target.append(":");
            target.append(prev_link.as_str());
            page.link("<< Previous page", target.as_str());
        } else {
            page.text_raw_line("  ");
        }
        let mut position = String::from_str("  Page ");
        push_decimal(&mut position, page_num as u64);
        position.append(" of ");
        push_decimal(&mut position, total_pages as u64);
        page.text_raw_line(position.as_str());
        if page_num < total_pages {
            let next_link = paginate_path(base_path, page_num + 1);
            let mut target = String::from_str(nomad_address);
            target.append(":");
            target.append(next_link.as_str());
            page.link("Next page >>", target.as_str());
        } else {
            page.text_raw_line("  ");
        }
        let ghost tail = "\n"@ + "-\n"@ + "\n"@
            + nav_markup(page_num > 1, "<< Previous page"@, nomad_address@ + ":"@ + paginate_spec(base_path@, (page_num - 1) as nat))
            + ("  Page "@ + decimal(page_num as nat) + " of "@ + decimal(total_pages as nat)) + "\n"@
            + nav_markup(page_num < total_pages, "Next page >>"@, nomad_address@ + ":"@ + paginate_spec(base_path@, page_num as nat + 1));
        assert(page@ =~= head + tail);
    } else {
        assert(page@ =~= head + Seq::<char>::empty());
    }
    page_bytes(&page)
}

/// A copy of a byte vector.
pub fn copy_bytes(v: &Vec<u8>) -> (c: Vec<u8>)
    ensures
        c@ == v@,
{
    let c = v.clone();
    assert(c@ =~= v@);
    c
}

/// Page contents by page path. Its view maps each path to its bytes.
#[derive(Debug)]
pub struct PageCache {
    pages: AssocList<String, Vec<u8>>,
}

impl View for PageCache {
    type V = Map<Seq<char>, Seq<u8>>;

    closed spec fn view(&self) -> Map<Seq<char>, Seq<u8>> {
        self.pages.map().map_values(|v: Vec<u8>| v@)
    }
}

impl PageCache {
    pub fn new() -> (c: Self)
        ensures
            c@ == Map::<Seq<char>, Seq<u8>>::empty(),
    {
        let c = PageCache { pages: AssocList::new() };
        assert(c@ =~= Map::<Seq<char>, Seq<u8>>::empty());
        c
    }

    /// Inserts or replaces the page at `path`.
    pub fn set(&mut self, path: &str, content: Vec<u8>)
        ensures
            final(self)@ == old(self)@.insert(path@, content@),
    {
        let ghost c = content@;
        self.pages.insert(String::from_str(path), content);
        assert(self@ =~= old(self)@.insert(path@, c));
    }

    /// The page at `path`.
    pub fn get(&self, path: &str) -> (r: Option<Vec<u8>>)
        ensures
            match r {
                Some(v) => self@.contains_key(path@) && v@ == self@[path@],
                None => !self@.contains_key(path@),
            },
    {
        let key = String::from_str(path);
        match self.pages.get(&key) {
            Some(v) => Some(copy_bytes(v)),
            None => None,
        }
    }

    /// Removes the page at `path`.
    pub fn remove(&mut self, path: &str)
        ensures
            final(self)@ == old(self)@.remove(path@),
    {
        let key = String::from_str(path);
        let _ = self.pages.remove(&key);
        assert(self@ =~= old(self)@.remove(path@));
    }

    /// The cached page paths, each once.
    pub fn paths(&self) -> (r: Vec<String>)
        ensures
            forall|i: int| 0 <= i < r@.len() ==> self@.contains_key(#[trigger] r@[i]@),
            forall|p: Seq<char>| self@.contains_key(p) ==> exists|i: int| 0 <= i < r@.len() && #[trigger] r@[i]@ == p,
            forall|i: int, j: int| 0 <= i < r@.len() && 0 <= j < r@.len() && i != j ==> r@[i]@ != r@[j]@,
    {
        self.pages.keys()
    }
}

impl Default for PageCache {
    fn default() -> (c: Self)
        ensures
            c@ == Map::<Seq<char>, Seq<u8>>::empty(),
    {
        Self::new()
    }
}

/// A served file: its bytes and its name.
#[derive(Clone, Debug)]
pub struct FileEntry {
    pub content: Vec<u8>,
    pub name: String,
}

impl View for FileEntry {
    type V = (Seq<u8>, Seq<char>);

    open spec fn view(&self) -> (Seq<u8>, Seq<char>) {
        (self.content@, self.name@)
    }
}

impl FileEntry {
    /// A copy of the entry.
    pub fn duplicate(&self) -> (e: FileEntry)
        ensures
            e@ == self@,
    {
        FileEntry { content: copy_bytes(&self.content), name: self.name.clone() }
    }
}

/// Files by request path. Its view maps each path to the file's bytes and
/// name.
#[derive(Debug)]
pub struct FileCache {
    files: AssocList<String, FileEntry>,
}

impl View for FileCache {
    type V = Map<Seq<char>, (Seq<u8>, Seq<char>)>;

    closed spec fn view(&self) -> Map<Seq<char>, (Seq<u8>, Seq<char>)> {
        self.files.map().map_values(|e: FileEntry| e@)
    }
}

impl FileCache {
    pub fn new() -> (c: Self)
        ensures
            c@ == Map::<Seq<char>, (Seq<u8>, Seq<char>)>::empty(),
    {
        let c = FileCache { files: AssocList::new() };
        assert(c@ =~= Map::<Seq<char>, (Seq<u8>, Seq<char>)>::empty());
        c
    }

    /// Inserts or replaces the file at `path`.
    pub fn set(&mut self, path: &str, entry: FileEntry)
        ensures
            final(self)@ == old(self)@.insert(path@, entry@),
    {
        let ghost e = entry@;
        self.files.insert(String::from_str(path), entry);
        assert(self@ =~= old(self)@.insert(path@, e));
    }

    /// The file at `path`.
    pub fn get(&self, path: &str) -> (r: Option<FileEntry>)
        ensures
            match r {
                Some(e) => self@.contains_key(path@) && e@ == self@[path@],
                None => !self@.contains_key(path@),
            },
    {
        let key = String::from_str(path);
        match self.files.get(&key) {
            Some(e) => Some(e.duplicate()),
            None => None,
        }
    }

    /// Removes the file at `path`.
    pub fn remove(&mut self, path: &str)
        ensures
            final(self)@ == old(self)@.remove(path@),
    {
        let key = String::from_str(path);
        let _ = self.files.remove(&key);
        assert(self@ =~= old(self)@.remove(path@));
    }

    /// The cached file paths, each once.
    pub fn paths(&self) -> (r: Vec<String>)
        ensures
            forall|i: int| 0 <= i < r@.len() ==> self@.contains_key(#[trigger] r@[i]@),
            forall|p: Seq<char>| self@.contains_key(p) ==> exists|i: int| 0 <= i < r@.len() && #[trigger] r@[i]@ == p,
            forall|i: int, j: int| 0 <= i < r@.len() && 0 <= j < r@.len() && i != j ==> r@[i]@ != r@[j]@,
    {
        self.files.keys()
    }
}

impl Default for FileCache {
    fn default() -> (c: Self)
        ensures
            c@ == Map::<Seq<char>, (Seq<u8>, Seq<char>)>::empty(),
    {
        Self::new()
    }
}

/// The destination hash of the NomadNet node of an identity.
pub open spec fn node_dest_hash_of(identity_hash: Seq<u8>) -> Seq<u8> {
    destination_hash_of("nomadnetwork"@, seq!["node"@], Some(identity_hash))
}

/// The markup of the built-in test page of the node at `nomad_address`.
pub open spec fn test_page_markup(nomad_address: Seq<char>) -> Seq<char> {
    "#!c="@ + decimal(0) + "\n"@
        + heading_markers(1) + " "@ + "Test Page"@ + "\n"@
        + "-\n"@
        + escape_spec("If you can read this, the built-in response path works!"@) + "\n"@
        + "\n"@
        + link_markup("Back to index"@, nomad_address + ":/page/index.mu"@)
}

/// Seconds from the start of announcing to the first announce.
pub const ANNOUNCE_START_DELAY_SECS: u64 = 2;

/// How a wait of the announcer ended.
#[derive(Debug, Clone, Copy, PartialEq, Eq, Structural)]
pub enum AnnounceEvent {
    /// The wait ran its full time.
    WaitOver,
    /// Announcing was cancelled during the wait.
    Cancelled,
}

/// What the announcer does next.
#[derive(Debug, Clone, Copy, PartialEq, Eq, Structural)]
pub enum AnnounceAction {
    /// Announce the node, then wait this many seconds.
    Announce { then_wait_secs: u64 },
    /// Stop announcing.
    Stop,
}

/// The announcer's decision after a wait, for a node announcing every
/// `interval_secs` seconds: it stops once cancelled, and otherwise
/// announces and waits a full interval. It starts with a wait of
/// `ANNOUNCE_START_DELAY_SECS` seconds.
pub fn announce_step(interval_secs: u64, event: AnnounceEvent) -> (a: AnnounceAction)
    ensures
        a == (match event {
            AnnounceEvent::WaitOver => AnnounceAction::Announce { then_wait_secs: interval_secs },
            AnnounceEvent::Cancelled => AnnounceAction::Stop,
        }),
{
    match event {
        AnnounceEvent::WaitOver => AnnounceAction::Announce { then_wait_secs: interval_secs },
        AnnounceEvent::Cancelled => AnnounceAction::Stop,
    }
}

/// A NomadNet node: its identity, its name and the pages and files it
/// serves. The network side (registering the destination and the request
/// handlers, announcing) is done by the program that runs the node; the
/// handlers answer with `handle_page_request` and `handle_file_request`.
pub struct NomadNode {
    dest_hash: [u8; 16],
    identity_hash: [u8; 16],
    identity_prv: [u8; 64],
    node_name: String,
    announce_interval_secs: u64,
    page_cache: PageCache,
    file_cache: FileCache,
}

impl NomadNode {
    pub closed spec fn dest_hash_view(&self) -> Seq<u8> {
        self.dest_hash@
    }

    pub closed spec fn identity_hash_view(&self) -> Seq<u8> {
        self.identity_hash@
    }

    pub closed spec fn identity_prv_view(&self) -> Seq<u8> {
        self.identity_prv@
    }

    pub closed spec fn node_name_view(&self) -> Seq<char> {
        self.node_name@
    }

    pub closed spec fn interval(&self) -> u64 {
        self.announce_interval_secs
    }

    pub closed spec fn pages(&self) -> Map<Seq<char>, Seq<u8>> {
        self.page_cache@
    }

    pub closed spec fn files(&self) -> Map<Seq<char>, (Seq<u8>, Seq<char>)> {
        self.file_cache@
    }

    /// The node's address: its destination hash in lowercase hex.
    pub open spec fn address(&self) -> Seq<char> {
        hex_lower(self.dest_hash_view())
    }

    /// Creates the node of the identity in `config`, with empty caches.
    /// Fails when the configured public signing key is not the one the
    /// private key gives.
    pub fn new(config: NodeConfig) -> (r: Result<Self, NomadError>)
        ensures
            ({
                let sig_pub = identity_public_key_of(config.identity_prv@).subrange(32, 64);
                if config.identity_pub@ != sig_pub {
                    r matches Err(NomadError::IdentityKeyMismatch { expected_sig_pub_hex, provided_sig_pub_hex })
                        && expected_sig_pub_hex@ == hex_lower(sig_pub)
                        && provided_sig_pub_hex@ == hex_lower(config.identity_pub@)
                } else {
                    r matches Ok(node)
                        && node.identity_hash_view() == identity_hash_of(config.identity_prv@)
                        && node.dest_hash_view() == node_dest_hash_of(identity_hash_of(config.identity_prv@))
                        && node.identity_prv_view() == config.identity_prv@
                        && node.node_name_view() == config.node_name@
                        && node.interval() == config.announce_interval_secs
                        && node.pages() == Map::<Seq<char>, Seq<u8>>::empty()
                        && node.files() == Map::<Seq<char>, (Seq<u8>, Seq<char>)>::empty()
                }
            }),
    {
        let ident_hash = identity_hash(&config.identity_prv);
        let aspects: [&str; 1] = ["node"];
        proof {
            assert(crate::text::str_views(aspects@) =~= seq!["node"@]);
            reveal_strlit("nomadnetwork");
            reveal_strlit("node");
            assert(aspects@[0]@ == "node"@);
        }
        let dest_hash = destination_hash("nomadnetwork", &aspects, Some(&ident_hash));
        let derived_pub = match identity_public_key(&config.identity_prv) {
            Some(k) => k,
            None => return Err(NomadError::DestinationRegistrationFailed),
        };
        let mut sig_pub: [u8; 32] = [0u8; 32];
        let mut i: usize = 0;
        let mut same = true;
        while i < 32
            invariant
                i <= 32,
                forall|k: int| 0 <= k < i ==> sig_pub@[k] == derived_pub@[k + 32],
                same == (forall|k: int| 0 <= k < i ==> config.identity_pub@[k] == derived_pub@[k + 32]),
            decreases 32 - i,
        {
            sig_pub[i] = derived_pub[i + 32];
            if config.identity_pub[i] != derived_pub[i + 32] {
                same = false;
            }
            i = i + 1;
        }
        assert(sig_pub@ =~= derived_pub@.subrange(32, 64));
        if !same {
            assert(config.identity_pub@ != derived_pub@.subrange(32, 64)) by {
                let k = choose|k: int| 0 <= k < 32 && config.identity_pub@[k] != derived_pub@[k + 32];
                assert(derived_pub@.subrange(32, 64)[k] == derived_pub@[k + 32]);
            }
            return Err(NomadError::IdentityKeyMismatch {
                expected_sig_pub_hex: hex_encode(&sig_pub),
                provided_sig_pub_hex: hex_encode(&config.identity_pub),
            });
        }
        assert(config.identity_pub@ =~= derived_pub@.subrange(32, 64));
        Ok(NomadNode {
            dest_hash,
            identity_hash: ident_hash,
            identity_prv: config.identity_prv,
            node_name: config.node_name,
            announce_interval_secs: config.announce_interval_secs,
            page_cache: PageCache::new(),
            file_cache: FileCache::new(),
        })
    }

    pub fn dest_hash(&self) -> (h: &[u8; 16])
        ensures
            h@ == self.dest_hash_view(),
    {
        &self.dest_hash
    }

    pub fn identity_hash(&self) -> (h: &[u8; 16])
        ensures
            h@ == self.identity_hash_view(),
    {
        &self.identity_hash
    }

    /// The private key the node announces with.
    pub fn identity_prv(&self) -> (k: &[u8; 64])
        ensures
            k@ == self.identity_prv_view(),
    {
        &self.identity_prv
    }

    pub fn node_name(&self) -> (n: &str)
        ensures
            n@ == self.node_name_view(),
    {
        self.node_name.as_str()
    }

    /// The application data of the node's announces: its name.
    pub fn announce_data(&self) -> (d: Vec<u8>)
        ensures
            d@ == encode_utf8(self.node_name_view()),
    {
        self.node_name.as_str().as_bytes_vec()
    }

    /// Seconds between announces.
    pub fn announce_interval_secs(&self) -> (s: u64)
        ensures
            s == self.interval(),
    {
        self.announce_interval_secs
    }

    /// The node's address: its destination hash in lowercase hex.
    pub fn nomad_address(&self) -> (a: String)
        ensures
            a@ == self.address(),
    {
        hex_encode(&self.dest_hash)
    }

    pub fn page_cache(&self) -> (c: &PageCache)
        ensures
            c@ == self.pages(),
    {
        &self.page_cache
    }

    pub fn file_cache(&self) -> (c: &FileCache)
        ensures
            c@ == self.files(),
    {
        &self.file_cache
    }

    /// The page cache, to be filled or changed by the caller.
    pub fn page_cache_mut(&mut self) -> (c: &mut PageCache)
        ensures
            c@ == old(self).pages(),
            final(self).pages() == final(c)@,
            final(self).files() == old(self).files(),
            final(self).dest_hash_view() == old(self).dest_hash_view(),
            final(self).identity_hash_view() == old(self).identity_hash_view(),
            final(self).identity_prv_view() == old(self).identity_prv_view(),
            final(self).node_name_view() == old(self).node_name_view(),
            final(self).interval() == old(self).interval(),
    {
        &mut self.page_cache
    }

    /// The file cache, to be filled or changed by the caller.
    pub fn file_cache_mut(&mut self) -> (c: &mut FileCache)
        ensures
            c@ == old(self).files(),
            final(self).files() == final(c)@,
            final(self).pages() == old(self).pages(),
            final(self).dest_hash_view() == old(self).dest_hash_view(),
            final(self).identity_hash_view() == old(self).identity_hash_view(),
            final(self).identity_prv_view() == old(self).identity_prv_view(),
            final(self).node_name_view() == old(self).node_name_view(),
            final(self).interval() == old(self).interval(),
    {
        &mut self.file_cache
    }

    /// The answer to a request for the page registered at `path`, asked as
    /// `req_path`: the cached page, or a not-found page naming `req_path`.
    pub fn handle_page_request(&self, path: &str, req_path: &str) -> (page: Vec<u8>)
        ensures
            self.pages().contains_key(path@) ==> page@ == self.pages()[path@],
            !self.pages().contains_key(path@) ==> page@ == encode_utf8(not_found_markup(req_path@, self.address())),
    {
        match self.page_cache.get(path) {
            Some(p) => p,
            None => {
                let address = self.nomad_address();
                build_404_page(req_path, address.as_str())
            },
        }
    }

    /// The answer to a request for the file registered at `path`: its
    /// bytes, or nothing when it is not cached.
    pub fn handle_file_request(&self, path: &str) -> (r: Option<Vec<u8>>)
        ensures
            match r {
                Some(b) => self.files().contains_key(path@) && b@ == self.files()[path@].0,
                None => !self.files().contains_key(path@),
            },
    {
        match self.file_cache.get(path) {
            Some(e) => Some(e.content),
            None => None,
        }
    }

    /// The built-in test page, served at `/page/test.mu`.
    pub fn test_page(&self) -> (page: Vec<u8>)
        ensures
            page@ == encode_utf8(test_page_markup(self.address())),
    {
        let address = self.nomad_address();
        let mut p = MicronBuilder::new();
        p.cache_directive(0);
        p.heading(1, "Test Page");
        p.divider();
        p.text("If you can read this, the built-in response path works!");
        p.blank_line();
        let mut target = address.clone();
        target.append(":/page/index.mu");
        p.link("Back to index", target.as_str());
        page_bytes(&p)
    }
}

} // verus!
