//! Media types by file extension, from a table in the format of Apache's
//! `mime.types` file: one media type per line, a tab, and its extensions
//! separated by spaces, with `#` starting a comment line.

use vstd::prelude::*;
use vstd::string::*;
use vstd::utf8::*;

use crate::context::str_from_utf8;
use crate::utils::{bytes_eq, split_bytes, split_on};

verus! {

/// The lines of a text as `BufRead::lines` reads them: the text is split at
/// each `\n`, a `\r` just before a `\n` is dropped, and there is no line
/// after a final `\n`.
pub open spec fn text_lines(text: Seq<u8>) -> Seq<Seq<u8>> {
    let pieces = split_bytes(text, 10u8);
    let n = if pieces.last().len() == 0 {
        pieces.len() - 1
    } else {
        pieces.len() as int
    };
    Seq::new(n as nat, |i: int| if i < pieces.len() - 1 { without_cr(pieces[i]) } else { pieces[i] })
}

/// A line without the `\r` at its end, if it has one.
pub open spec fn without_cr(line: Seq<u8>) -> Seq<u8> {
    if line.len() > 0 && line.last() == 13u8 {
        line.drop_last()
    } else {
        line
    }
}

/// The pieces that are not empty, in order.
pub open spec fn nonempty(pieces: Seq<Seq<u8>>) -> Seq<Seq<u8>>
    decreases pieces.len(),
{
    if pieces.len() == 0 {
        pieces
    } else {
        let rest = nonempty(pieces.drop_last());
        if pieces.last().len() > 0 {
            rest.push(pieces.last())
        } else {
            rest
        }
    }
}

/// What a line of the table says: the top-level and sub-level names of a
/// media type and its extensions. Lines that are not UTF-8, comment lines
/// (starting with `#`), and lines without a media type with a `/` and, after
/// a tab, a list of extensions say nothing. The fields are split at tabs,
/// skipping empty ones; the media type at `/`; the extensions at spaces.
pub open spec fn line_entry(line: Seq<u8>) -> Option<(Seq<u8>, Seq<u8>, Seq<Seq<u8>>)> {
    if !valid_utf8(line) || (line.len() > 0 && line[0] == 35u8) {
        None
    } else {
        let fields = nonempty(split_bytes(line, 9u8));
        if fields.len() < 2 {
            None
        } else {
            let kind = split_bytes(fields[0], 47u8);
            if kind.len() < 2 {
                None
            } else {
                Some((kind[0], kind[1], split_bytes(fields[1], 32u8)))
            }
        }
    }
}

/// A map with each of the extensions given the media type, in order.
pub open spec fn with_extensions(
    m: Map<Seq<u8>, (Seq<u8>, Seq<u8>)>,
    exts: Seq<Seq<u8>>,
    top: Seq<u8>,
    sub: Seq<u8>,
) -> Map<Seq<u8>, (Seq<u8>, Seq<u8>)>
    decreases exts.len(),
{
    if exts.len() == 0 {
        m
    } else {
        with_extensions(m, exts.drop_last(), top, sub).insert(exts.last(), (top, sub))
    }
}

/// The table that lines make: each extension maps to the names of the media
/// type of the last line that lists it.
pub open spec fn mime_table(lines: Seq<Seq<u8>>) -> Map<Seq<u8>, (Seq<u8>, Seq<u8>)>
    decreases lines.len(),
{
    if lines.len() == 0 {
        Map::empty()
    } else {
        let m = mime_table(lines.drop_last());
        match line_entry(lines.last()) {
            Some((top, sub, exts)) => with_extensions(m, exts, top, sub),
            None => m,
        }
    }
}

/// The top-level part of a media type.
#[derive(Clone, Debug, PartialEq, Eq)]
pub enum TopLevel {
    Star,
    Text,
    Image,
    Audio,
    Video,
    Application,
    Multipart,
    Message,
    Model,
    /// Any other name.
    Ext(Vec<u8>),
}

/// The sub-level part of a media type.
#[derive(Clone, Debug, PartialEq, Eq)]
pub enum SubLevel {
    Star,
    Plain,
    Html,
    Xml,
    Javascript,
    Css,
    Json,
    WwwFormUrlEncoded,
    FormData,
    Png,
    Gif,
    Bmp,
    Jpeg,
    /// Any other name.
    Ext(Vec<u8>),
}

/// The abstract value of a top-level part.
pub ghost enum TopView {
    Star,
    Text,
    Image,
    Audio,
    Video,
    Application,
    Multipart,
    Message,
    Model,
    Ext(Seq<u8>),
}

/// The abstract value of a sub-level part.
pub ghost enum SubView {
    Star,
    Plain,
    Html,
    Xml,
    Javascript,
    Css,
    Json,
    WwwFormUrlEncoded,
    FormData,
    Png,
    Gif,
    Bmp,
    Jpeg,
    Ext(Seq<u8>),
}

impl View for TopLevel {
    type V = TopView;

    open spec fn view(&self) -> TopView {
        match self {
            TopLevel::Star => TopView::Star,
            TopLevel::Text => TopView::Text,
            TopLevel::Image => TopView::Image,
            TopLevel::Audio => TopView::Audio,
            TopLevel::Video => TopView::Video,
            TopLevel::Application => TopView::Application,
            TopLevel::Multipart => TopView::Multipart,
            TopLevel::Message => TopView::Message,
            TopLevel::Model => TopView::Model,
            TopLevel::Ext(name) => TopView::Ext(name@),
        }
    }
}

impl View for SubLevel {
    type V = SubView;

    open spec fn view(&self) -> SubView {
        match self {
            SubLevel::Star => SubView::Star,
            SubLevel::Plain => SubView::Plain,
            SubLevel::Html => SubView::Html,
            SubLevel::Xml => SubView::Xml,
            SubLevel::Javascript => SubView::Javascript,
            SubLevel::Css => SubView::Css,
            SubLevel::Json => SubView::Json,
            SubLevel::WwwFormUrlEncoded => SubView::WwwFormUrlEncoded,
            SubLevel::FormData => SubView::FormData,
            SubLevel::Png => SubView::Png,
            SubLevel::Gif => SubView::Gif,
            SubLevel::Bmp => SubView::Bmp,
            SubLevel::Jpeg => SubView::Jpeg,
            SubLevel::Ext(name) => SubView::Ext(name@),
        }
    }
}

/// The top-level part that a name stands for.
pub open spec fn top_level(name: Seq<u8>) -> TopView {
    if name == "*".spec_bytes() {
        TopView::Star
    } else if name == "text".spec_bytes() {
        TopView::Text
    } else if name == "image".spec_bytes() {
        TopView::Image
    } else if name == "audio".spec_bytes() {
        TopView::Audio
    } else if name == "video".spec_bytes() {
        TopView::Video
    } else if name == "application".spec_bytes() {
        TopView::Application
    } else if name == "multipart".spec_bytes() {
        TopView::Multipart
    } else if name == "message".spec_bytes() {
        TopView::Message
    } else if name == "model".spec_bytes() {
        TopView::Model
    } else {
        TopView::Ext(name)
    }
}

/// The sub-level part that a name stands for.
pub open spec fn sub_level(name: Seq<u8>) -> SubView {
    if name == "*".spec_bytes() {
        SubView::Star
    } else if name == "plain".spec_bytes() {
        SubView::Plain
    } else if name == "html".spec_bytes() {
        SubView::Html
    } else if name == "xml".spec_bytes() {
        SubView::Xml
    } else if name == "javascript".spec_bytes() {
        SubView::Javascript
    } else if name == "css".spec_bytes() {
        SubView::Css
    } else if name == "json".spec_bytes() {
        SubView::Json
    } else if name == "www-form-url-encoded".spec_bytes() {
        SubView::WwwFormUrlEncoded
    } else if name == "form-data".spec_bytes() {
        SubView::FormData
    } else if name == "png".spec_bytes() {
        SubView::Png
    } else if name == "gif".spec_bytes() {
        SubView::Gif
    } else if name == "bmp".spec_bytes() {
        SubView::Bmp
    } else if name == "jpeg".spec_bytes() {
        SubView::Jpeg
    } else {
        SubView::Ext(name)
    }
}

/// Whether a byte string is the name.
fn is_name(bytes: &[u8], name: &str) -> (r: bool)
    ensures
        r == (bytes@ == name.spec_bytes()),
{
    bytes_eq(bytes, name.as_bytes())
}

fn copy_bytes(bytes: &[u8]) -> (r: Vec<u8>)
    ensures
        r@ == bytes@,
{
    let mut r: Vec<u8> = Vec::new();
    r.extend_from_slice(bytes);
    r
}

/// The top-level part that a name stands for.
pub fn top_level_of(name: &[u8]) -> (r: TopLevel)
    ensures
        r@ == top_level(name@),
{
    if is_name(name, "*") {
        TopLevel::Star
    } else if is_name(name, "text") {
        TopLevel::Text
    } else if is_name(name, "image") {
        TopLevel::Image
    } else if is_name(name, "audio") {
        TopLevel::Audio
    } else if is_name(name, "video") {
        TopLevel::Video
    } else if is_name(name, "application") {
        TopLevel::Application
    } else if is_name(name, "multipart") {
        TopLevel::Multipart
    } else if is_name(name, "message") {
        TopLevel::Message
    } else if is_name(name, "model") {
        TopLevel::Model
    } else {
        TopLevel::Ext(copy_bytes(name))
    }
}

/// The sub-level part that a name stands for.
pub fn sub_level_of(name: &[u8]) -> (r: SubLevel)
    ensures
        r@ == sub_level(name@),
{
    if is_name(name, "*") {
        SubLevel::Star
    } else if is_name(name, "plain") {
        SubLevel::Plain
    } else if is_name(name, "html") {
        SubLevel::Html
    } else if is_name(name, "xml") {
        SubLevel::Xml
    } else if is_name(name, "javascript") {
        SubLevel::Javascript
    } else if is_name(name, "css") {
        SubLevel::Css
    } else if is_name(name, "json") {
        SubLevel::Json
    } else if is_name(name, "www-form-url-encoded") {
        SubLevel::WwwFormUrlEncoded
    } else if is_name(name, "form-data") {
        SubLevel::FormData
    } else if is_name(name, "png") {
        SubLevel::Png
    } else if is_name(name, "gif") {
        SubLevel::Gif
    } else if is_name(name, "bmp") {
        SubLevel::Bmp
    } else if is_name(name, "jpeg") {
        SubLevel::Jpeg
    } else {
        SubLevel::Ext(copy_bytes(name))
    }
}

/// The abstract values of byte strings.
pub open spec fn byte_views(v: Seq<Vec<u8>>) -> Seq<Seq<u8>> {
    v.map_values(|p: Vec<u8>| p@)
}

/// Split a text into lines as `BufRead::lines` does.
pub fn text_lines_of(text: &[u8]) -> (r: Vec<Vec<u8>>)
    ensures
        byte_views(r@) == text_lines(text@),
{
    let pieces = split_on(text, 10u8);
    let ghost pv = split_bytes(text@, 10u8);
    proof {
        crate::utils::lemma_split_bytes_nonempty(text@, 10u8);
        assert(byte_views(pieces@) == pv);
    }
    let count = pieces.len();
    let n = if pieces[count - 1].len() == 0 {
        count - 1
    } else {
        count
    };
    proof {
        assert(pieces@[count - 1]@ == pv[count - 1]);
    }
    let mut lines: Vec<Vec<u8>> = Vec::new();
    let mut i: usize = 0;
    while i < n
        invariant
            pv == split_bytes(text@, 10u8),
            byte_views(pieces@) == pv,
            count == pieces@.len(),
            n <= count,
            0 <= i <= n,
            lines@.len() == i,
            forall|j: int| 0 <= j < i ==> (#[trigger] lines@[j])@ == text_lines(text@)[j],
            n == text_lines(text@).len(),
        decreases n - i,
    {
        let piece = pieces[i].as_slice();
        proof {
            assert(piece@ == pv[i as int]);
        }
        let line = if i + 1 < count && piece.len() > 0 && piece[piece.len() - 1] == 13u8 {
            let mut l = copy_bytes(piece);
            l.pop();
            proof {
                assert(l@ =~= piece@.drop_last());
            }
            l
        } else {
            copy_bytes(piece)
        };
        lines.push(line);
        i = i + 1;
    }
    proof {
        assert(byte_views(lines@) =~= text_lines(text@));
    }
    lines
}

/// The pieces that are not empty, copied in order.
fn nonempty_of(pieces: &Vec<Vec<u8>>) -> (r: Vec<Vec<u8>>)
    ensures
        byte_views(r@) == nonempty(byte_views(pieces@)),
{
    let ghost pv = byte_views(pieces@);
    let mut r: Vec<Vec<u8>> = Vec::new();
    let mut i: usize = 0;
    proof {
        assert(pv.take(0) =~= Seq::<Seq<u8>>::empty());
        assert(byte_views(r@) =~= nonempty(pv.take(0)));
    }
    while i < pieces.len()
        invariant
            pv == byte_views(pieces@),
            0 <= i <= pieces@.len(),
            byte_views(r@) == nonempty(pv.take(i as int)),
        decreases pieces@.len() - i,
    {
        proof {
            assert(pv.take(i + 1).drop_last() =~= pv.take(i as int));
            assert(pv.take(i + 1).last() == pieces@[i as int]@);
        }
        let ghost before = r@;
        if pieces[i].len() > 0 {
            r.push(copy_bytes(pieces[i].as_slice()));
            proof {
                assert(byte_views(r@) =~= byte_views(before).push(pieces@[i as int]@));
            }
        }
        i = i + 1;
    }
    proof {
        assert(pv.take(i as int) =~= pv);
    }
    r
}

/// What a line of the table says, as `line_entry` describes it.
pub fn line_entry_of(line: &[u8]) -> (r: Option<(Vec<u8>, Vec<u8>, Vec<Vec<u8>>)>)
    ensures
        match line_entry(line@) {
            None => r is None,
            Some((top, sub, exts)) => r matches Some((t, s, e)) && t@ == top && s@ == sub && byte_views(e@) == exts,
        },
{
    if str_from_utf8(line).is_err() {
        return None;
    }
    if line.len() > 0 && line[0] == 35u8 {
        return None;
    }
    let pieces = split_on(line, 9u8);
    proof {
        assert(byte_views(pieces@) == split_bytes(line@, 9u8));
    }
    let fields = nonempty_of(&pieces);
    if fields.len() < 2 {
        return None;
    }
    let kind = split_on(fields[0].as_slice(), 47u8);
    proof {
        assert(fields@[0]@ == byte_views(fields@)[0]);
        assert(byte_views(kind@) == split_bytes(fields@[0]@, 47u8));
    }
    if kind.len() < 2 {
        return None;
    }
    let exts = split_on(fields[1].as_slice(), 32u8);
    proof {
        assert(fields@[1]@ == byte_views(fields@)[1]);
        assert(byte_views(exts@) == split_bytes(fields@[1]@, 32u8));
        assert(kind@[0]@ == byte_views(kind@)[0]);
        assert(kind@[1]@ == byte_views(kind@)[1]);
    }
    Some((copy_bytes(kind[0].as_slice()), copy_bytes(kind[1].as_slice()), exts))
}

/// A table of media types by file extension.
pub struct MimeTable {
    entries: Vec<(Vec<u8>, Vec<u8>, Vec<u8>)>,
}

/// The position of an extension among the entries.
pub open spec fn ext_index(entries: Seq<(Vec<u8>, Vec<u8>, Vec<u8>)>, ext: Seq<u8>) -> int {
    choose|i: int| 0 <= i < entries.len() && entries[i].0@ == ext
}

/// The map that entries with distinct extensions stand for.
pub open spec fn entries_table(entries: Seq<(Vec<u8>, Vec<u8>, Vec<u8>)>) -> Map<Seq<u8>, (Seq<u8>, Seq<u8>)> {
    Map::new(
        |e: Seq<u8>| exists|i: int| 0 <= i < entries.len() && entries[i].0@ == e,
        |e: Seq<u8>| (entries[ext_index(entries, e)].1@, entries[ext_index(entries, e)].2@),
    )
}

/// No extension occurs twice.
pub open spec fn distinct_exts(entries: Seq<(Vec<u8>, Vec<u8>, Vec<u8>)>) -> bool {
    forall|i: int, j: int| 0 <= i < entries.len() && 0 <= j < entries.len() && i != j ==> entries[i].0@ != entries[j].0@
}

proof fn lemma_lookup(entries: Seq<(Vec<u8>, Vec<u8>, Vec<u8>)>, i: int)
    requires
        distinct_exts(entries),
        0 <= i < entries.len(),
    ensures
        entries_table(entries).dom().contains(entries[i].0@),
        entries_table(entries)[entries[i].0@] == (entries[i].1@, entries[i].2@),
{
    let e = entries[i].0@;
    assert(exists|j: int| 0 <= j < entries.len() && entries[j].0@ == e);
    let j = ext_index(entries, e);
    assert(j == i);
}

impl View for MimeTable {
    type V = Map<Seq<u8>, (Seq<u8>, Seq<u8>)>;

    closed spec fn view(&self) -> Map<Seq<u8>, (Seq<u8>, Seq<u8>)> {
        entries_table(self.entries@)
    }
}

impl MimeTable {
    /// No extension occurs twice.
    pub closed spec fn wf(&self) -> bool {
        distinct_exts(self.entries@)
    }

    /// An empty table.
    pub fn new() -> (r: MimeTable)
        ensures
            r.wf(),
            r@ == Map::<Seq<u8>, (Seq<u8>, Seq<u8>)>::empty(),
    {
        let r = MimeTable { entries: Vec::new() };
        assert(r@ =~= Map::<Seq<u8>, (Seq<u8>, Seq<u8>)>::empty());
        r
    }

    fn position(&self, ext: &[u8]) -> (r: Option<usize>)
        ensures
            match r {
                Some(i) => i < self.entries@.len() && self.entries@[i as int].0@ == ext@,
                None => forall|j: int| 0 <= j < self.entries@.len() ==> self.entries@[j].0@ != ext@,
            },
    {
        let mut i: usize = 0;
        while i < self.entries.len()
            invariant
                0 <= i <= self.entries@.len(),
                forall|j: int| 0 <= j < i ==> self.entries@[j].0@ != ext@,
            decreases self.entries@.len() - i,
        {
            if bytes_eq(self.entries[i].0.as_slice(), ext) {
                return Some(i);
            }
            i = i + 1;
        }
        None
    }

    /// Give an extension a media type, replacing any earlier one.
    pub fn set(&mut self, ext: &[u8], top: &[u8], sub: &[u8])
        requires
            old(self).wf(),
        ensures
            final(self).wf(),
            final(self)@ == old(self)@.insert(ext@, (top@, sub@)),
    {
        let ghost old_entries = self.entries@;
        let ghost k = ext@;
        let ghost v = (top@, sub@);
        let entry = (copy_bytes(ext), copy_bytes(top), copy_bytes(sub));
        match self.position(ext) {
            Some(i) => {
                self.entries.set(i, entry);
                proof {
                    let new_entries = self.entries@;
                    assert forall|a: int, b: int| 0 <= a < new_entries.len() && 0 <= b < new_entries.len() && a != b
                        implies new_entries[a].0@ != new_entries[b].0@ by {
                        assert(old_entries[a].0@ == new_entries[a].0@);
                        assert(old_entries[b].0@ == new_entries[b].0@);
                    }
                    assert forall|e: Seq<u8>| #[trigger] entries_table(new_entries).dom().contains(e)
                        <==> entries_table(old_entries).insert(k, v).dom().contains(e) by {
                        if entries_table(old_entries).dom().contains(e) {
                            let j = choose|j: int| 0 <= j < old_entries.len() && old_entries[j].0@ == e;
                            assert(new_entries[j].0@ == e);
                        }
                        if e == k {
                            assert(new_entries[i as int].0@ == e);
                        }
                        if entries_table(new_entries).dom().contains(e) {
                            let j = choose|j: int| 0 <= j < new_entries.len() && new_entries[j].0@ == e;
                            assert(old_entries[j].0@ == e);
                        }
                    }
                    assert forall|e: Seq<u8>| #[trigger] entries_table(new_entries).dom().contains(e)
                        implies entries_table(new_entries)[e] == entries_table(old_entries).insert(k, v)[e] by {
                        let j = choose|j: int| 0 <= j < new_entries.len() && new_entries[j].0@ == e;
                        lemma_lookup(new_entries, j);
                        lemma_lookup(old_entries, j);
                    }
                    assert(self@ =~= entries_table(old_entries).insert(k, v));
                }
            },
            None => {
                self.entries.push(entry);
                proof {
                    let new_entries = self.entries@;
                    let n = old_entries.len() as int;
                    assert forall|a: int, b: int| 0 <= a < new_entries.len() && 0 <= b < new_entries.len() && a != b
                        implies new_entries[a].0@ != new_entries[b].0@ by {
                        if a < n && b < n {
                            assert(old_entries[a] == new_entries[a]);
                            assert(old_entries[b] == new_entries[b]);
                        }
                    }
                    assert forall|e: Seq<u8>| #[trigger] entries_table(new_entries).dom().contains(e)
                        <==> entries_table(old_entries).insert(k, v).dom().contains(e) by {
                        if entries_table(old_entries).dom().contains(e) && e != k {
                            let j = choose|j: int| 0 <= j < old_entries.len() && old_entries[j].0@ == e;
                            assert(new_entries[j].0@ == e);
                        }
                        if e == k {
                            assert(new_entries[n].0@ == e);
                        }
                        if entries_table(new_entries).dom().contains(e) && e != k {
                            let j = choose|j: int| 0 <= j < new_entries.len() && new_entries[j].0@ == e;
                            assert(old_entries[j].0@ == e);
                        }
                    }
                    assert forall|e: Seq<u8>| #[trigger] entries_table(new_entries).dom().contains(e)
                        implies entries_table(new_entries)[e] == entries_table(old_entries).insert(k, v)[e] by {
                        let j = choose|j: int| 0 <= j < new_entries.len() && new_entries[j].0@ == e;
                        lemma_lookup(new_entries, j);
                        if j < n {
                            lemma_lookup(old_entries, j);
                        }
                    }
                    assert(self@ =~= entries_table(old_entries).insert(k, v));
                }
            },
        }
    }

    /// The names of the media type of an extension, if it has one.
    pub fn get(&self, ext: &[u8]) -> (r: Option<(&[u8], &[u8])>)
        requires
            self.wf(),
        ensures
            r is Some <==> self@.dom().contains(ext@),
            r matches Some((top, sub)) ==> self@[ext@] == (top@, sub@),
    {
        match self.position(ext) {
            Some(i) => {
                proof {
                    lemma_lookup(self.entries@, i as int);
                }
                Some((self.entries[i].1.as_slice(), self.entries[i].2.as_slice()))
            },
            None => None,
        }
    }
}

/// Read a table in the format of Apache's `mime.types` file: each line that
/// says something gives each of its extensions its media type, and a later
/// line wins.
pub fn parse_mime_types(text: &[u8]) -> (r: MimeTable)
    ensures
        r.wf(),
        r@ == mime_table(text_lines(text@)),
{
    let lines = text_lines_of(text);
    let ghost lv = byte_views(lines@);
    let mut table = MimeTable::new();
    let mut i: usize = 0;
    proof {
        assert(lv.take(0) =~= Seq::<Seq<u8>>::empty());
    }
    while i < lines.len()
        invariant
            lv == byte_views(lines@),
            lv == text_lines(text@),
            0 <= i <= lines@.len(),
            table.wf(),
            table@ == mime_table(lv.take(i as int)),
        decreases lines@.len() - i,
    {
        proof {
            assert(lv.take(i + 1).drop_last() =~= lv.take(i as int));
            assert(lv.take(i + 1).last() == lines@[i as int]@);
        }
        let ghost before = table@;
        match line_entry_of(lines[i].as_slice()) {
            Some((top, sub, exts)) => {
                let ghost ev = byte_views(exts@);
                let mut j: usize = 0;
                proof {
                    assert(ev.take(0) =~= Seq::<Seq<u8>>::empty());
                }
                while j < exts.len()
                    invariant
                        ev == byte_views(exts@),
                        0 <= j <= exts@.len(),
                        table.wf(),
                        table@ == with_extensions(before, ev.take(j as int), top@, sub@),
                    decreases exts@.len() - j,
                {
                    proof {
                        assert(ev.take(j + 1).drop_last() =~= ev.take(j as int));
                        assert(ev.take(j + 1).last() == exts@[j as int]@);
                    }
                    table.set(exts[j].as_slice(), top.as_slice(), sub.as_slice());
                    j = j + 1;
                }
                proof {
                    assert(ev.take(j as int) =~= ev);
                }
            },
            None => {},
        }
        i = i + 1;
    }
    proof {
        assert(lv.take(i as int) =~= lv);
    }
    table
}

/// The media type of a file extension in a table, if it has one.
pub fn ext_to_mime(table: &MimeTable, ext: &str) -> (r: Option<(TopLevel, SubLevel)>)
    requires
        table.wf(),
    ensures
        r is Some <==> table@.dom().contains(ext.spec_bytes()),
        r matches Some((top, sub)) ==> {
            &&& top@ == top_level(table@[ext.spec_bytes()].0)
            &&& sub@ == sub_level(table@[ext.spec_bytes()].1)
        },
{
    match table.get(ext.as_bytes()) {
        Some((top, sub)) => Some((top_level_of(top), sub_level_of(sub))),
        None => None,
    }
}

/// The media type to send a file as: that of its extension in the table,
/// or `application/octet-stream` for a file without a known extension.
pub fn file_mime(table: &MimeTable, ext: Option<&str>) -> (r: (TopLevel, SubLevel))
    requires
        table.wf(),
    ensures
        match ext {
            Some(e) if table@.dom().contains(e.spec_bytes()) => {
                &&& r.0@ == top_level(table@[e.spec_bytes()].0)
                &&& r.1@ == sub_level(table@[e.spec_bytes()].1)
            },
            _ => r.0@ == TopView::Application && r.1@ == SubView::Ext("octet-stream".spec_bytes()),
        },
{
    let found = match ext {
        Some(e) => ext_to_mime(table, e),
        None => None,
    };
    match found {
        Some(mime) => mime,
        None => (TopLevel::Application, SubLevel::Ext(copy_bytes("octet-stream".as_bytes()))),
    }
}

/// The name of each known top-level part, as in a media type such as `text/html`.
pub open spec fn top_name(t: TopView) -> Option<Seq<u8>> {
    match t {
        TopView::Star => Some(seq![42u8]),
        TopView::Text => Some(seq![116u8, 101u8, 120u8, 116u8]),
        TopView::Image => Some(seq![105u8, 109u8, 97u8, 103u8, 101u8]),
        TopView::Audio => Some(seq![97u8, 117u8, 100u8, 105u8, 111u8]),
        TopView::Video => Some(seq![118u8, 105u8, 100u8, 101u8, 111u8]),
        TopView::Application => Some(seq![97u8, 112u8, 112u8, 108u8, 105u8, 99u8, 97u8, 116u8, 105u8, 111u8, 110u8]),
        TopView::Multipart => Some(seq![109u8, 117u8, 108u8, 116u8, 105u8, 112u8, 97u8, 114u8, 116u8]),
        TopView::Message => Some(seq![109u8, 101u8, 115u8, 115u8, 97u8, 103u8, 101u8]),
        TopView::Model => Some(seq![109u8, 111u8, 100u8, 101u8, 108u8]),
        TopView::Ext(_) => None,
    }
}

/// The name of each known sub-level part, as in a media type such as `text/html`.
pub open spec fn sub_name(t: SubView) -> Option<Seq<u8>> {
    match t {
        SubView::Star => Some(seq![42u8]),
        SubView::Plain => Some(seq![112u8, 108u8, 97u8, 105u8, 110u8]),
        SubView::Html => Some(seq![104u8, 116u8, 109u8, 108u8]),
        SubView::Xml => Some(seq![120u8, 109u8, 108u8]),
        SubView::Javascript => Some(seq![106u8, 97u8, 118u8, 97u8, 115u8, 99u8, 114u8, 105u8, 112u8, 116u8]),
        SubView::Css => Some(seq![99u8, 115u8, 115u8]),
        SubView::Json => Some(seq![106u8, 115u8, 111u8, 110u8]),
        SubView::WwwFormUrlEncoded => Some(seq![119u8, 119u8, 119u8, 45u8, 102u8, 111u8, 114u8, 109u8, 45u8, 117u8, 114u8, 108u8, 45u8, 101u8, 110u8, 99u8, 111u8, 100u8, 101u8, 100u8]),
        SubView::FormData => Some(seq![102u8, 111u8, 114u8, 109u8, 45u8, 100u8, 97u8, 116u8, 97u8]),
        SubView::Png => Some(seq![112u8, 110u8, 103u8]),
        SubView::Gif => Some(seq![103u8, 105u8, 102u8]),
        SubView::Bmp => Some(seq![98u8, 109u8, 112u8]),
        SubView::Jpeg => Some(seq![106u8, 112u8, 101u8, 103u8]),
        SubView::Ext(_) => None,
    }
}

/// The bytes of the names of the known parts of media types.
proof fn lemma_media_names()
    ensures
        "*".spec_bytes() == seq![42u8],
        "text".spec_bytes() == seq![116u8, 101u8, 120u8, 116u8],
        "image".spec_bytes() == seq![105u8, 109u8, 97u8, 103u8, 101u8],
        "audio".spec_bytes() == seq![97u8, 117u8, 100u8, 105u8, 111u8],
        "video".spec_bytes() == seq![118u8, 105u8, 100u8, 101u8, 111u8],
        "application".spec_bytes() == seq![97u8, 112u8, 112u8, 108u8, 105u8, 99u8, 97u8, 116u8, 105u8, 111u8, 110u8],
        "multipart".spec_bytes() == seq![109u8, 117u8, 108u8, 116u8, 105u8, 112u8, 97u8, 114u8, 116u8],
        "message".spec_bytes() == seq![109u8, 101u8, 115u8, 115u8, 97u8, 103u8, 101u8],
        "model".spec_bytes() == seq![109u8, 111u8, 100u8, 101u8, 108u8],
        "plain".spec_bytes() == seq![112u8, 108u8, 97u8, 105u8, 110u8],
        "html".spec_bytes() == seq![104u8, 116u8, 109u8, 108u8],
        "xml".spec_bytes() == seq![120u8, 109u8, 108u8],
        "javascript".spec_bytes() == seq![106u8, 97u8, 118u8, 97u8, 115u8, 99u8, 114u8, 105u8, 112u8, 116u8],
        "css".spec_bytes() == seq![99u8, 115u8, 115u8],
        "json".spec_bytes() == seq![106u8, 115u8, 111u8, 110u8],
        "www-form-url-encoded".spec_bytes() == seq![119u8, 119u8, 119u8, 45u8, 102u8, 111u8, 114u8, 109u8, 45u8, 117u8, 114u8, 108u8, 45u8, 101u8, 110u8, 99u8, 111u8, 100u8, 101u8, 100u8],
        "form-data".spec_bytes() == seq![102u8, 111u8, 114u8, 109u8, 45u8, 100u8, 97u8, 116u8, 97u8],
        "png".spec_bytes() == seq![112u8, 110u8, 103u8],
        "gif".spec_bytes() == seq![103u8, 105u8, 102u8],
        "bmp".spec_bytes() == seq![98u8, 109u8, 112u8],
        "jpeg".spec_bytes() == seq![106u8, 112u8, 101u8, 103u8],
{
    reveal_strlit("*");
    vstd::string::is_ascii_spec_bytes("*");
    assert("*".spec_bytes() =~= seq![42u8]);
    reveal_strlit("text");
    vstd::string::is_ascii_spec_bytes("text");
    assert("text".spec_bytes() =~= seq![116u8, 101u8, 120u8, 116u8]);
    reveal_strlit("image");
    vstd::string::is_ascii_spec_bytes("image");
    assert("image".spec_bytes() =~= seq![105u8, 109u8, 97u8, 103u8, 101u8]);
    reveal_strlit("audio");
    vstd::string::is_ascii_spec_bytes("audio");
    assert("audio".spec_bytes() =~= seq![97u8, 117u8, 100u8, 105u8, 111u8]);
    reveal_strlit("video");
    vstd::string::is_ascii_spec_bytes("video");
    assert("video".spec_bytes() =~= seq![118u8, 105u8, 100u8, 101u8, 111u8]);
    reveal_strlit("application");
    vstd::string::is_ascii_spec_bytes("application");
    assert("application".spec_bytes() =~= seq![97u8, 112u8, 112u8, 108u8, 105u8, 99u8, 97u8, 116u8, 105u8, 111u8, 110u8]);
    reveal_strlit("multipart");
    vstd::string::is_ascii_spec_bytes("multipart");
    assert("multipart".spec_bytes() =~= seq![109u8, 117u8, 108u8, 116u8, 105u8, 112u8, 97u8, 114u8, 116u8]);
    reveal_strlit("message");
    vstd::string::is_ascii_spec_bytes("message");
    assert("message".spec_bytes() =~= seq![109u8, 101u8, 115u8, 115u8, 97u8, 103u8, 101u8]);
    reveal_strlit("model");
    vstd::string::is_ascii_spec_bytes("model");
    assert("model".spec_bytes() =~= seq![109u8, 111u8, 100u8, 101u8, 108u8]);
    reveal_strlit("plain");
    vstd::string::is_ascii_spec_bytes("plain");
    assert("plain".spec_bytes() =~= seq![112u8, 108u8, 97u8, 105u8, 110u8]);
    reveal_strlit("html");
    vstd::string::is_ascii_spec_bytes("html");
    assert("html".spec_bytes() =~= seq![104u8, 116u8, 109u8, 108u8]);
    reveal_strlit("xml");
    vstd::string::is_ascii_spec_bytes("xml");
    assert("xml".spec_bytes() =~= seq![120u8, 109u8, 108u8]);
    reveal_strlit("javascript");
    vstd::string::is_ascii_spec_bytes("javascript");
    assert("javascript".spec_bytes() =~= seq![106u8, 97u8, 118u8, 97u8, 115u8, 99u8, 114u8, 105u8, 112u8, 116u8]);
    reveal_strlit("css");
    vstd::string::is_ascii_spec_bytes("css");
    assert("css".spec_bytes() =~= seq![99u8, 115u8, 115u8]);
    reveal_strlit("json");
    vstd::string::is_ascii_spec_bytes("json");
    assert("json".spec_bytes() =~= seq![106u8, 115u8, 111u8, 110u8]);
    reveal_strlit("www-form-url-encoded");
    vstd::string::is_ascii_spec_bytes("www-form-url-encoded");
    assert("www-form-url-encoded".spec_bytes() =~= seq![119u8, 119u8, 119u8, 45u8, 102u8, 111u8, 114u8, 109u8, 45u8, 117u8, 114u8, 108u8, 45u8, 101u8, 110u8, 99u8, 111u8, 100u8, 101u8, 100u8]);
    reveal_strlit("form-data");
    vstd::string::is_ascii_spec_bytes("form-data");
    assert("form-data".spec_bytes() =~= seq![102u8, 111u8, 114u8, 109u8, 45u8, 100u8, 97u8, 116u8, 97u8]);
    reveal_strlit("png");
    vstd::string::is_ascii_spec_bytes("png");
    assert("png".spec_bytes() =~= seq![112u8, 110u8, 103u8]);
    reveal_strlit("gif");
    vstd::string::is_ascii_spec_bytes("gif");
    assert("gif".spec_bytes() =~= seq![103u8, 105u8, 102u8]);
    reveal_strlit("bmp");
    vstd::string::is_ascii_spec_bytes("bmp");
    assert("bmp".spec_bytes() =~= seq![98u8, 109u8, 112u8]);
    reveal_strlit("jpeg");
    vstd::string::is_ascii_spec_bytes("jpeg");
    assert("jpeg".spec_bytes() =~= seq![106u8, 112u8, 101u8, 103u8]);
}

/// Each known top-level part is what its own name stands for.
pub proof fn law_top_level_names(t: TopView)
    requires
        !(t is Ext),
    ensures
        top_level(top_name(t)->0) == t,
{
    lemma_media_names();
}

/// A name that is not the name of a known top-level part stands for
/// itself, as an unknown part.
pub proof fn law_top_level_unknown(name: Seq<u8>)
    requires
        forall|t: TopView| #[trigger] top_name(t) != Some(name),
    ensures
        top_level(name) == TopView::Ext(name),
{
    lemma_media_names();
    assert(top_name(TopView::Star) != Some(name));
    assert(top_name(TopView::Text) != Some(name));
    assert(top_name(TopView::Image) != Some(name));
    assert(top_name(TopView::Audio) != Some(name));
    assert(top_name(TopView::Video) != Some(name));
    assert(top_name(TopView::Application) != Some(name));
    assert(top_name(TopView::Multipart) != Some(name));
    assert(top_name(TopView::Message) != Some(name));
    assert(top_name(TopView::Model) != Some(name));
}

/// Each known sub-level part is what its own name stands for.
pub proof fn law_sub_level_names(t: SubView)
    requires
        !(t is Ext),
    ensures
        sub_level(sub_name(t)->0) == t,
{
    lemma_media_names();
}

/// A name that is not the name of a known sub-level part stands for itself,
/// as an unknown part.
pub proof fn law_sub_level_unknown(name: Seq<u8>)
    requires
        forall|t: SubView| #[trigger] sub_name(t) != Some(name),
    ensures
        sub_level(name) == SubView::Ext(name),
{
    lemma_media_names();
    assert(sub_name(SubView::Star) != Some(name));
    assert(sub_name(SubView::Plain) != Some(name));
    assert(sub_name(SubView::Html) != Some(name));
    assert(sub_name(SubView::Xml) != Some(name));
    assert(sub_name(SubView::Javascript) != Some(name));
    assert(sub_name(SubView::Css) != Some(name));
    assert(sub_name(SubView::Json) != Some(name));
    assert(sub_name(SubView::WwwFormUrlEncoded) != Some(name));
    assert(sub_name(SubView::FormData) != Some(name));
    assert(sub_name(SubView::Png) != Some(name));
    assert(sub_name(SubView::Gif) != Some(name));
    assert(sub_name(SubView::Bmp) != Some(name));
    assert(sub_name(SubView::Jpeg) != Some(name));
}

} // verus!
