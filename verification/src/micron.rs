//! Fluent builder for NomadNet Micron markup.

use vstd::prelude::*;
use vstd::string::*;

use crate::text::{decimal, join, push_char, push_decimal, push_joined, str_views};

verus! {

/// Column alignment for micron tables.
#[derive(Clone, Copy, Debug, PartialEq, Eq, Structural)]
pub enum TableAlign {
    Left,
    Center,
    Right,
}

/// The markup character of an alignment.
pub open spec fn align_char(a: TableAlign) -> char {
    match a {
        TableAlign::Left => 'l',
        TableAlign::Center => 'c',
        TableAlign::Right => 'r',
    }
}

impl TableAlign {
    pub fn as_char(self) -> (c: char)
        ensures
            c == align_char(self),
    {
        match self {
            TableAlign::Left => 'l',
            TableAlign::Center => 'c',
            TableAlign::Right => 'r',
        }
    }
}

/// `input` with every backtick doubled, every other character kept.
pub open spec fn escape_spec(input: Seq<char>) -> Seq<char>
    decreases input.len(),
{
    if input.len() == 0 {
        Seq::empty()
    } else {
        escape_spec(input.drop_last()) + (if input.last() == '`' {
            seq!['`', '`']
        } else {
            seq![input.last()]
        })
    }
}

/// `min(level, 8)` heading markers.
pub open spec fn heading_markers(level: nat) -> Seq<char> {
    Seq::new(if level < 8 { level } else { 8 }, |i: int| '>')
}

/// A link element: the escaped label and the target url.
pub open spec fn link_markup(label: Seq<char>, url: Seq<char>) -> Seq<char> {
    "`["@ + escape_spec(label) + "`"@ + url + "]"@
}

/// A link element carrying form field names; without fields it is a plain link.
pub open spec fn link_fields_markup(label: Seq<char>, url: Seq<char>, fields: Seq<Seq<char>>) -> Seq<char> {
    if fields.len() == 0 {
        link_markup(label, url)
    } else {
        "`["@ + escape_spec(label) + "`"@ + url + "`"@ + join(fields, "|"@) + "]"@
    }
}

/// The opening line of a table block.
pub open spec fn table_start_markup(align: Option<TableAlign>, max_width: Option<usize>) -> Seq<char> {
    "`t"@ + (match align {
        Some(a) => seq![align_char(a)],
        None => Seq::empty(),
    }) + (match max_width {
        Some(w) => decimal(w as nat),
        None => Seq::empty(),
    }) + "\n"@
}

/// The view of an optional string slice.
pub open spec fn opt_view(s: Option<&str>) -> Option<Seq<char>> {
    match s {
        Some(t) => Some(t@),
        None => None,
    }
}

/// A partial element.
pub open spec fn partial_markup(url: Seq<char>, refresh: Option<Seq<char>>, fields: Seq<char>) -> Seq<char> {
    "`{"@ + url + (match refresh {
        Some(t) => "`"@ + t,
        None => Seq::empty(),
    }) + (if fields.len() == 0 {
        Seq::empty()
    } else {
        "`"@ + fields
    }) + "}\n"@
}

/// An ASCII hexadecimal digit.
pub open spec fn is_hex_digit(c: char) -> bool {
    ('0' <= c && c <= '9') || ('a' <= c && c <= 'f') || ('A' <= c && c <= 'F')
}

/// Exactly six ASCII hexadecimal digits.
pub open spec fn is_hex6(s: Seq<char>) -> bool {
    s.len() == 6 && forall|i: int| 0 <= i < 6 ==> is_hex_digit(#[trigger] s[i])
}

/// Fluent builder for Micron markup. Its view is the markup written so far.
pub struct MicronBuilder {
    inner: String,
    directives_written: bool,
}

impl View for MicronBuilder {
    type V = Seq<char>;

    closed spec fn view(&self) -> Seq<char> {
        self.inner@
    }
}

impl MicronBuilder {
    /// Whether a directive or a content element has been written.
    pub closed spec fn directives_done(&self) -> bool {
        self.directives_written
    }

    pub fn new() -> (b: Self)
        ensures
            b@ == Seq::<char>::empty(),
            !b.directives_done(),
    {
        MicronBuilder { inner: String::new(), directives_written: false }
    }

    fn ensure_directives(&mut self)
        ensures
            final(self)@ == old(self)@,
            final(self).directives_done(),
    {
        if !self.directives_written {
            self.directives_written = true;
        }
    }

    pub fn cache_directive(&mut self, seconds: u32) -> (r: &mut Self)
        ensures
            r@ == old(self)@ + "#!c="@ + decimal(seconds as nat) + "\n"@,
            r.directives_done(),
            *final(self) == *final(r),
    {
        self.inner.append("#!c=");
        push_decimal(&mut self.inner, seconds as u64);
        self.inner.append("\n");
        self.directives_written = true;
        self
    }

    pub fn bg_color_directive(&mut self, hex: &str) -> (r: &mut Self)
        ensures
            r@ == old(self)@ + "#!bg="@ + hex@ + "\n"@,
            r.directives_done(),
            *final(self) == *final(r),
    {
        self.inner.append("#!bg=");
        self.inner.append(hex);
        self.inner.append("\n");
        self.directives_written = true;
        self
    }

    pub fn fg_color_directive(&mut self, hex: &str) -> (r: &mut Self)
        ensures
            r@ == old(self)@ + "#!fg="@ + hex@ + "\n"@,
            r.directives_done(),
            *final(self) == *final(r),
    {
        self.inner.append("#!fg=");
        self.inner.append(hex);
        self.inner.append("\n");
        self.directives_written = true;
        self
    }

    pub fn heading(&mut self, level: usize, text: &str) -> (r: &mut Self)
        ensures
            r@ == old(self)@ + heading_markers(level as nat) + " "@ + text@ + "\n"@,
            r.directives_done(),
            *final(self) == *final(r),
    {
        self.ensure_directives();
        let count = if level < 8 { level } else { 8 };
        let ghost start = self.inner@;
        let mut i: usize = 0;
        while i < count
            invariant
                i <= count,
                self.directives_written,
                count == (if level < 8 { level } else { 8 }),
                self.inner@ == start + Seq::new(i as nat, |j: int| '>'),
            decreases count - i,
        {
            push_char(&mut self.inner, '>');
            i = i + 1;
            assert(self.inner@ =~= start + Seq::new(i as nat, |j: int| '>'));
        }
        assert(Seq::new(i as nat, |j: int| '>') =~= heading_markers(level as nat));
        self.inner.append(" ");
        self.inner.append(text);
        self.inner.append("\n");
        self
    }

    pub fn reset_depth(&mut self) -> (r: &mut Self)
        ensures
            r@ == old(self)@ + "<\n"@,
            r.directives_done(),
            *final(self) == *final(r),
    {
        self.ensure_directives();
        self.inner.append("<\n");
        self
    }

    pub fn divider(&mut self) -> (r: &mut Self)
        ensures
            r@ == old(self)@ + "-\n"@,
            r.directives_done(),
            *final(self) == *final(r),
    {
        self.ensure_directives();
        self.inner.append("-\n");
        self
    }

    pub fn custom_divider(&mut self, ch: char) -> (r: &mut Self)
        ensures
            r@ == old(self)@ + "-"@ + seq![ch] + "\n"@,
            r.directives_done(),
            *final(self) == *final(r),
    {
        self.ensure_directives();
        self.inner.append("-");
        push_char(&mut self.inner, ch);
        self.inner.append("\n");
        self
    }

    pub fn text(&mut self, text: &str) -> (r: &mut Self)
        ensures
            r@ == old(self)@ + escape_spec(text@) + "\n"@,
            r.directives_done(),
            *final(self) == *final(r),
    {
        self.ensure_directives();
        let escaped = Self::escape(text);
        self.inner.append(escaped.as_str());
        self.inner.append("\n");
        self
    }

    pub fn text_raw_line(&mut self, text: &str) -> (r: &mut Self)
        ensures
            r@ == old(self)@ + text@ + "\n"@,
            r.directives_done(),
            *final(self) == *final(r),
    {
        self.ensure_directives();
        self.inner.append(text);
        self.inner.append("\n");
        self
    }

    pub fn bold(&mut self, text: &str) -> (r: &mut Self)
        ensures
            r@ == old(self)@ + "`!"@ + escape_spec(text@) + "!"@,
            r.directives_done(),
            *final(self) == *final(r),
    {
        self.ensure_directives();
        let escaped = Self::escape(text);
        self.inner.append("`!");
        self.inner.append(escaped.as_str());
        self.inner.append("!");
        self
    }

    pub fn italic(&mut self, text: &str) -> (r: &mut Self)
        ensures
            r@ == old(self)@ + "`*"@ + escape_spec(text@) + "*"@,
            r.directives_done(),
            *final(self) == *final(r),
    {
        self.ensure_directives();
        let escaped = Self::escape(text);
        self.inner.append("`*");
        self.inner.append(escaped.as_str());
        self.inner.append("*");
        self
    }

    pub fn underline(&mut self, text: &str) -> (r: &mut Self)
        ensures
            r@ == old(self)@ + "`_"@ + escape_spec(text@) + "_"@,
            r.directives_done(),
            *final(self) == *final(r),
    {
        self.ensure_directives();
        let escaped = Self::escape(text);
        self.inner.append("`_");
        self.inner.append(escaped.as_str());
        self.inner.append("_");
        self
    }

    pub fn color_fg(&mut self, hex: &str) -> (r: &mut Self)
        ensures
            r@ == old(self)@ + "`F"@ + hex@,
            r.directives_done(),
            *final(self) == *final(r),
    {
        self.ensure_directives();
        self.inner.append("`F");
        self.inner.append(hex);
        self
    }

    pub fn color_bg(&mut self, hex: &str) -> (r: &mut Self)
        ensures
            r@ == old(self)@ + "`B"@ + hex@,
            r.directives_done(),
            *final(self) == *final(r),
    {
        self.ensure_directives();
        self.inner.append("`B");
        self.inner.append(hex);
        self
    }

    pub fn reset_fg(&mut self) -> (r: &mut Self)
        ensures
            r@ == old(self)@ + "`f"@,
            r.directives_done(),
            *final(self) == *final(r),
    {
        self.ensure_directives();
        self.inner.append("`f");
        self
    }

    pub fn reset_bg(&mut self) -> (r: &mut Self)
        ensures
            r@ == old(self)@ + "`b"@,
            r.directives_done(),
            *final(self) == *final(r),
    {
        self.ensure_directives();
        self.inner.append("`b");
        self
    }

    pub fn reset_formatting(&mut self) -> (r: &mut Self)
        ensures
            r@ == old(self)@ + "` "@,
            r.directives_done(),
            *final(self) == *final(r),
    {
        self.ensure_directives();
        self.inner.append("` ");
        self
    }

    pub fn center(&mut self, text: &str) -> (r: &mut Self)
        ensures
            r@ == old(self)@ + "`c"@ + escape_spec(text@),
            r.directives_done(),
            *final(self) == *final(r),
    {
        self.ensure_directives();
        let escaped = Self::escape(text);
        self.inner.append("`c");
        self.inner.append(escaped.as_str());
        self
    }

    pub fn left_align(&mut self, text: &str) -> (r: &mut Self)
        ensures
            r@ == old(self)@ + "`l"@ + escape_spec(text@),
            r.directives_done(),
            *final(self) == *final(r),
    {
        self.ensure_directives();
        let escaped = Self::escape(text);
        self.inner.append("`l");
        self.inner.append(escaped.as_str());
        self
    }

    pub fn right_align(&mut self, text: &str) -> (r: &mut Self)
        ensures
            r@ == old(self)@ + "`r"@ + escape_spec(text@),
            r.directives_done(),
            *final(self) == *final(r),
    {
        self.ensure_directives();
        let escaped = Self::escape(text);
        self.inner.append("`r");
        self.inner.append(escaped.as_str());
        self
    }

    pub fn link(&mut self, label: &str, url: &str) -> (r: &mut Self)
        ensures
            r@ == old(self)@ + link_markup(label@, url@),
            r.directives_done(),
            *final(self) == *final(r),
    {
        self.ensure_directives();
        let escaped_label = Self::escape(label);
        self.inner.append("`[");
        self.inner.append(escaped_label.as_str());
        self.inner.append("`");
        self.inner.append(url);
        self.inner.append("]");
        self
    }

    pub fn link_with_fields(&mut self, label: &str, url: &str, fields: &[&str]) -> (r: &mut Self)
        ensures
            r@ == old(self)@ + link_fields_markup(label@, url@, str_views(fields@)),
            r.directives_done(),
            *final(self) == *final(r),
    {
        self.ensure_directives();
        let escaped_label = Self::escape(label);
        self.inner.append("`[");
        self.inner.append(escaped_label.as_str());
        self.inner.append("`");
        self.inner.append(url);
        if fields.len() != 0 {
            self.inner.append("`");
            push_joined(&mut self.inner, fields, "|");
        }
        self.inner.append("]");
        self
    }

    pub fn lxmf_link(&mut self, label: &str, dest_hash: &str) -> (r: &mut Self)
        ensures
            r@ == old(self)@ + "`["@ + escape_spec(label@) + "`@lxmf:"@ + dest_hash@ + "]"@,
            r.directives_done(),
            *final(self) == *final(r),
    {
        self.ensure_directives();
        let escaped_label = Self::escape(label);
        self.inner.append("`[");
        self.inner.append(escaped_label.as_str());
        self.inner.append("`@lxmf:");
        self.inner.append(dest_hash);
        self.inner.append("]");
        self
    }

    pub fn field(&mut self, name: &str, default: &str) -> (r: &mut Self)
        ensures
            r@ == old(self)@ + "`<"@ + name@ + "`"@ + default@ + ">"@,
            r.directives_done(),
            *final(self) == *final(r),
    {
        self.ensure_directives();
        self.inner.append("`<");
        self.inner.append(name);
        self.inner.append("`");
        self.inner.append(default);
        self.inner.append(">");
        self
    }

    pub fn field_with_width(&mut self, width: usize, name: &str, default: &str) -> (r: &mut Self)
        ensures
            r@ == old(self)@ + "`<"@ + decimal(width as nat) + "|"@ + name@ + "`"@ + default@ + ">"@,
            r.directives_done(),
            *final(self) == *final(r),
    {
        self.ensure_directives();
        self.inner.append("`<");
        push_decimal(&mut self.inner, width as u64);
        self.inner.append("|");
        self.inner.append(name);
        self.inner.append("`");
        self.inner.append(default);
        self.inner.append(">");
        self
    }

    pub fn masked_field(&mut self, name: &str, default: &str) -> (r: &mut Self)
        ensures
            r@ == old(self)@ + "`<!"@ + name@ + "`"@ + default@ + ">"@,
            r.directives_done(),
            *final(self) == *final(r),
    {
        self.ensure_directives();
        self.inner.append("`<!");
        self.inner.append(name);
        self.inner.append("`");
        self.inner.append(default);
        self.inner.append(">");
        self
    }

    pub fn checkbox(&mut self, name: &str, value: &str, label: &str, checked: bool) -> (r: &mut Self)
        ensures
            r@ == old(self)@ + "`<?|"@ + name@ + "|"@ + value@ + "|"@ + (if checked { "*"@ } else { Seq::<char>::empty() }) + "> "@ + escape_spec(label@),
            r.directives_done(),
            *final(self) == *final(r),
    {
        self.ensure_directives();
        let escaped_label = Self::escape(label);
        self.inner.append("`<?|");
        self.inner.append(name);
        self.inner.append("|");
        self.inner.append(value);
        self.inner.append("|");
        if checked {
            self.inner.append("*");
        }
        self.inner.append("> ");
        self.inner.append(escaped_label.as_str());
        self
    }

    pub fn table_row(&mut self, columns: &[&str]) -> (r: &mut Self)
        ensures
            r@ == old(self)@ + "|"@ + join(str_views(columns@), "|"@) + "|\n"@,
            r.directives_done(),
            *final(self) == *final(r),
    {
        self.ensure_directives();
        self.inner.append("|");
        push_joined(&mut self.inner, columns, "|");
        self.inner.append("|\n");
        self
    }

    pub fn table_end(&mut self) -> (r: &mut Self)
        ensures
            r@ == old(self)@ + "`t\n"@,
            r.directives_done(),
            *final(self) == *final(r),
    {
        self.ensure_directives();
        self.inner.append("`t\n");
        self
    }

    pub fn comment(&mut self, text: &str) -> (r: &mut Self)
        ensures
            r@ == old(self)@ + "# "@ + text@ + "\n"@,
            r.directives_done() == old(self).directives_done(),
            *final(self) == *final(r),
    {
        self.inner.append("# ");
        self.inner.append(text);
        self.inner.append("\n");
        self
    }

    pub fn literal(&mut self, text: &str) -> (r: &mut Self)
        ensures
            r@ == old(self)@ + "`="@ + text@ + "\n"@,
            r.directives_done(),
            *final(self) == *final(r),
    {
        self.ensure_directives();
        self.inner.append("`=");
        self.inner.append(text);
        self.inner.append("\n");
        self
    }

    pub fn blank_line(&mut self) -> (r: &mut Self)
        ensures
            r@ == old(self)@ + "\n"@,
            r.directives_done() == old(self).directives_done(),
            *final(self) == *final(r),
    {
        self.inner.append("\n");
        self
    }

    pub fn raw(&mut self, micron: &str) -> (r: &mut Self)
        ensures
            r@ == old(self)@ + micron@,
            r.directives_done(),
            *final(self) == *final(r),
    {
        self.ensure_directives();
        self.inner.append(micron);
        self
    }

    pub fn submit_link(&mut self, label: &str, url: &str) -> (r: &mut Self)
        ensures
            r@ == old(self)@ + link_fields_markup(label@, url@, seq!["*"@]),
            r.directives_done(),
            *final(self) == *final(r),
    {
        let fields: [&str; 1] = ["*"];
        proof {
            assert(str_views(fields@) =~= seq!["*"@]);
        }
        self.link_with_fields(label, url, &fields)
    }

    /// Begins a table block, with an optional column alignment and maximum
    /// rendering width.
    pub fn table_start(&mut self, align: Option<TableAlign>, max_width: Option<usize>) -> (r: &mut Self)
        ensures
            r@ == old(self)@ + table_start_markup(align, max_width),
            r.directives_done(),
            *final(self) == *final(r),
    {
        self.ensure_directives();
        self.inner.append("`t");
        if let Some(a) = align {
            push_char(&mut self.inner, a.as_char());
        }
        if let Some(w) = max_width {
            push_decimal(&mut self.inner, w as u64);
        }
        self.inner.append("\n");
        self
    }

    /// Inserts a partial: a page section fetched from `url`. `refresh` is the
    /// refresh interval in seconds as it is to be printed, `fields` the
    /// pipe-delimited field names passed along (omitted when empty).
    pub fn partial(&mut self, url: &str, refresh: Option<&str>, fields: &str) -> (r: &mut Self)
        ensures
            r@ == old(self)@ + partial_markup(url@, opt_view(refresh), fields@),
            r.directives_done(),
            *final(self) == *final(r),
    {
        self.ensure_directives();
        self.inner.append("`{");
        self.inner.append(url);
        if let Some(secs) = refresh {
            self.inner.append("`");
            self.inner.append(secs);
        }
        if !fields.is_empty() {
            self.inner.append("`");
            self.inner.append(fields);
        }
        self.inner.append("}\n");
        self
    }

    /// Inline foreground color given as exactly six hexadecimal digits.
    pub fn truecolor_fg(&mut self, hex6: &str) -> (r: &mut Self)
        requires
            is_hex6(hex6@),
        ensures
            r@ == old(self)@ + "`F"@ + hex6@,
            r.directives_done(),
            *final(self) == *final(r),
    {
        self.color_fg(hex6)
    }

    /// Inline background color given as exactly six hexadecimal digits.
    pub fn truecolor_bg(&mut self, hex6: &str) -> (r: &mut Self)
        requires
            is_hex6(hex6@),
        ensures
            r@ == old(self)@ + "`B"@ + hex6@,
            r.directives_done(),
            *final(self) == *final(r),
    {
        self.color_bg(hex6)
    }

    /// The markup built so far.
    pub fn build(&self) -> (s: String)
        ensures
            s@ == self@,
    {
        self.inner.clone()
    }

    pub fn escape(input: &str) -> (out: String)
        ensures
            out@ == escape_spec(input@),
    {
        let mut out = String::new();
        for ch in it: input.chars()
            invariant
                it.seq() == input@,
                out@ == escape_spec(it.seq().take(it.index())),
        {
            assert(it.seq().take(it.index() + 1).drop_last() == it.seq().take(it.index()));
            if ch == '`' {
                out.append("``");
                proof { reveal_strlit("``"); }
            } else {
                push_char(&mut out, ch);
            }
        }
        assert(input@.take(input@.len() as int) == input@);
        out
    }
}

impl Default for MicronBuilder {
    fn default() -> (b: Self)
        ensures
            b@ == Seq::<char>::empty(),
            !b.directives_done(),
    {
        Self::new()
    }
}

} // verus!
