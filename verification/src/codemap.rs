use crate::span::Span;
use vstd::prelude::*;
use vstd::string::*;
use vstd::utf8::*;

verus! {

/// What a source file is known by.
pub enum FileName {
    /// A file on disk, with its path.
    Real(String),
    /// Something that is no file on disk, such as a piece of text.
    Other,
}

/// A source file and the place it has in the code map: its text starts at `start_pos`, and
/// every later byte of it has the next position.
pub struct FileMap {
    pub name: FileName,
    pub start_pos: u32,
    pub src: String,
}

/// A source file, whatever holds its text.
pub struct FileView {
    /// The path of a file on disk.
    pub name: Option<Seq<char>>,
    pub start_pos: u32,
    pub src: Seq<char>,
}

impl View for FileMap {
    type V = FileView;

    open spec fn view(&self) -> FileView {
        FileView {
            name: match self.name {
                FileName::Real(path) => Some(path@),
                FileName::Other => None,
            },
            start_pos: self.start_pos,
            src: self.src@,
        }
    }
}

/// A text without the byte order mark at its start, if there is one.
pub open spec fn without_mark(text: Seq<char>) -> Seq<char> {
    if text.len() > 0 && text[0] == '\u{feff}' {
        text.skip(1)
    } else {
        text
    }
}

impl FileView {
    /// The bytes of the file.
    pub open spec fn bytes(self) -> Seq<u8> {
        encode_utf8(self.src)
    }

    /// The position just behind the last byte.
    pub open spec fn end(self) -> int {
        self.start_pos + self.bytes().len()
    }

    /// Every position of the file is a `u32`.
    pub open spec fn wf(self) -> bool {
        self.end() <= u32::MAX
    }

    /// The span of the whole file.
    pub open spec fn whole(self) -> Span {
        Span::between(self.start_pos, self.end() as u32)
    }

    /// Whether `lo` and `hi`, in this order, are positions of the file.
    pub open spec fn holds(self, lo: int, hi: int) -> bool {
        self.start_pos <= lo <= hi <= self.end()
    }

    /// The text from `lo` to `hi`, which are positions of the file; there is none where one of
    /// the two stands inside a character.
    pub open spec fn text(self, lo: int, hi: int) -> Option<Seq<char>> {
        let from = lo - self.start_pos;
        let to = hi - self.start_pos;
        if is_char_boundary(self.bytes(), from) && is_char_boundary(self.bytes(), to) {
            Some(decode_utf8(self.bytes().subrange(from, to)))
        } else {
            None
        }
    }

    /// The text from `lo` to `hi`, if both are positions of the file and neither stands inside a
    /// character.
    pub open spec fn snippet(self, lo: int, hi: int) -> Option<Seq<char>> {
        if self.holds(lo, hi) {
            self.text(lo, hi)
        } else {
            None
        }
    }

    /// Whether the file is the one on disk with the path `name`.
    pub open spec fn is_named(self, name: Seq<char>) -> bool {
        self.name == Some(name)
    }
}

fn drop_mark(text: String) -> (r: String)
    ensures
        r@ == without_mark(text@),
{
    let len: usize = text.as_str().unicode_len();
    if len > 0 && text.as_str().get_char(0) == '\u{feff}' {
        assert(text@.subrange(1, len as int) =~= text@.skip(1));
        text.as_str().substring_char(1, len).to_owned()
    } else {
        text
    }
}

impl FileMap {
    pub fn new(name: FileName, start_pos: u32, src: String) -> (r: FileMap)
        ensures
            r == (FileMap { name, start_pos, src }),
    {
        FileMap { name, start_pos, src }
    }

    /// A file with the given text, which is no file on disk. As with every source that is loaded, a
    /// byte order mark at the start of the text does not count as a part of it.
    pub fn from_text(start_pos: u32, text: String) -> (r: FileMap)
        ensures
            r@ == (FileView { name: None, start_pos, src: without_mark(text@) }),
    {
        FileMap { name: FileName::Other, start_pos, src: drop_mark(text) }
    }

    /// Whether the file is the one on disk with the path `name`.
    pub fn has_name(&self, name: &String) -> (r: bool)
        ensures
            r == self@.is_named(name@),
    {
        match &self.name {
            FileName::Real(path) => *path == *name,
            FileName::Other => false,
        }
    }

    /// Whether every position of the file is a `u32`.
    pub fn is_addressable(&self) -> (r: bool)
        ensures
            r == self@.wf(),
    {
        let len: usize = self.src.as_str().as_bytes().len();
        len <= (u32::MAX - self.start_pos) as usize
    }

    pub fn end_pos(&self) -> (r: u32)
        requires
            self@.wf(),
        ensures
            r == self@.end(),
    {
        let len: usize = self.src.as_str().as_bytes().len();
        self.start_pos + len as u32
    }

    fn has_positions(&self, span: &Span) -> (r: bool)
        ensures
            r == self@.holds(span.lo as int, span.hi as int),
    {
        let len: usize = self.src.as_str().as_bytes().len();
        self.start_pos <= span.lo && span.lo <= span.hi && (span.hi - self.start_pos) as usize
            <= len
    }

    /// The text that `span` covers, if it is a span of this file and neither end stands inside a
    /// character.
    pub fn span_to_snippet(&self, span: &Span) -> (r: Option<String>)
        ensures
            r is Some <==> self@.snippet(span.lo as int, span.hi as int) is Some,
            r matches Some(s) ==> s@ == self@.snippet(span.lo as int, span.hi as int)->0,
    {
        if self.has_positions(span) {
            file_text(
                self,
                (span.lo - self.start_pos) as usize,
                (span.hi - self.start_pos) as usize,
            )
        } else {
            None
        }
    }
}

/// The text that `span` covers in the first of `files` that holds both its ends.
pub open spec fn snippet_in(files: Seq<FileView>, lo: int, hi: int) -> Option<Seq<char>>
    decreases files.len(),
{
    if files.len() == 0 {
        None
    } else if files[0].holds(lo, hi) {
        files[0].text(lo, hi)
    } else {
        snippet_in(files.skip(1), lo, hi)
    }
}

/// Whether file number `i` is the first one with the path `name`.
pub open spec fn is_first_named(files: Seq<FileView>, name: Seq<char>, i: int) -> bool {
    &&& 0 <= i < files.len()
    &&& files[i].is_named(name)
    &&& forall|j: int| 0 <= j < i ==> !(#[trigger] files[j]).is_named(name)
}

/// The number of the first file with the path `name`.
pub open spec fn named_file(files: Seq<FileView>, name: Seq<char>) -> Option<int> {
    if exists|i: int| is_first_named(files, name, i) {
        Some(choose|i: int| is_first_named(files, name, i))
    } else {
        None
    }
}

proof fn lemma_named_file(files: Seq<FileView>, name: Seq<char>, i: int)
    requires
        is_first_named(files, name, i),
    ensures
        named_file(files, name) == Some(i),
{
    let j = choose|j: int| is_first_named(files, name, j);
    assert(is_first_named(files, name, j));
    if i < j {
        assert(!files[i].is_named(name));
    } else if j < i {
        assert(!files[j].is_named(name));
    }
}

/// The source files of a crate. No two of them share a position.
pub struct CodeMap {
    pub files: Vec<FileMap>,
}

pub open spec fn files_view(files: Seq<FileMap>) -> Seq<FileView> {
    Seq::new(files.len(), |i: int| files[i]@)
}

impl View for CodeMap {
    type V = Seq<FileView>;

    open spec fn view(&self) -> Seq<FileView> {
        files_view(self.files@)
    }
}

impl CodeMap {
    /// The number of the first file with the path `name`.
    pub fn get_filemap(&self, name: &str) -> (r: Option<usize>)
        ensures
            match named_file(self@, name@) {
                Some(i) => r == Some(i as usize) && i == i as usize && i < self@.len(),
                None => r is None,
            },
    {
        let wanted = name.to_owned();
        let mut i: usize = 0;
        while i < self.files.len()
            invariant
                i <= self.files.len(),
                wanted@ == name@,
                forall|j: int| 0 <= j < i ==> !(#[trigger] self@[j]).is_named(name@),
            decreases self.files.len() - i,
        {
            if self.files[i].has_name(&wanted) {
                proof {
                    lemma_named_file(self@, name@, i as int);
                }
                return Some(i);
            }
            i = i + 1;
        }
        None
    }

    /// The text that `span` covers. There is none where the ends of the span lie in no file or
    /// in different ones, or where one of them stands inside a character.
    pub fn span_to_snippet(&self, span: &Span) -> (r: Option<String>)
        ensures
            r is Some <==> snippet_in(self@, span.lo as int, span.hi as int) is Some,
            r matches Some(s) ==> s@ == snippet_in(self@, span.lo as int, span.hi as int)->0,
    {
        let mut i: usize = 0;
        assert(self@.skip(0) =~= self@);
        while i < self.files.len()
            invariant
                i <= self.files.len(),
                snippet_in(self@, span.lo as int, span.hi as int) == snippet_in(
                    self@.skip(i as int),
                    span.lo as int,
                    span.hi as int,
                ),
            decreases self.files.len() - i,
        {
            let file = &self.files[i];
            assert(self@.skip(i as int).skip(1) =~= self@.skip(i + 1));
            assert(self@.skip(i as int)[0] == file@);
            if file.has_positions(span) {
                return file.span_to_snippet(span);
            }
            i = i + 1;
        }
        None
    }
}

/// The text of `file` between the byte offsets `from` and `to`.
fn file_text(file: &FileMap, from: usize, to: usize) -> (r: Option<String>)
    requires
        from <= to <= file@.bytes().len(),
    ensures
        r is Some <==> file@.text(file.start_pos + from, file.start_pos + to) is Some,
        r matches Some(s) ==> s@ == file@.text(file.start_pos + from, file.start_pos + to)->0,
{
    let src: &str = file.src.as_str();
    if !src.is_char_boundary(from) || !src.is_char_boundary(to) {
        return None;
    }
    let (_, tail) = src.split_at(from);
    proof {
        let bytes = file@.bytes();
        encode_utf8_valid_utf8(src@);
        encode_utf8_valid_utf8(tail@);
        if to < bytes.len() {
            is_char_boundary_iff_not_is_continuation_byte(bytes, to as int);
            is_char_boundary_iff_not_is_continuation_byte(tail.spec_bytes(), to - from);
        }
        is_char_boundary_start_end_of_seq(tail.spec_bytes());
    }
    let (piece, _) = tail.split_at(to - from);
    proof {
        assert(piece.spec_bytes() =~= file@.bytes().subrange(from as int, to as int));
        encode_utf8_decode_utf8(piece@);
    }
    Some(piece.to_owned())
}

} // verus!
