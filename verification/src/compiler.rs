use vstd::prelude::*;
use crate::text::{chars_of, string_from_chars};

verus! {

/// A registered source file: its numeric id and its name on disk.
pub struct FileData {
    file_id: u16,
    filename: String,
}

impl View for FileData {
    type V = (u16, Seq<char>);

    closed spec fn view(&self) -> (u16, Seq<char>) {
        (self.file_id, self.filename@)
    }
}

impl FileData {
    pub fn new(file_id: u16, filename: &str) -> (r: Self)
        ensures
            r@ == (file_id, filename@),
    {
        let filename = String::from_str(filename);
        FileData { file_id, filename }
    }

    pub fn get_file_id(&self) -> (r: u16)
        ensures
            r == self@.0,
    {
        self.file_id
    }

    pub fn get_filename(&self) -> (r: String)
        ensures
            r@ == self@.1,
    {
        self.filename.clone()
    }

    pub fn change_file_id(&mut self, new_file_id: u16)
        ensures
            final(self)@ == (new_file_id, old(self)@.1),
    {
        self.file_id = new_file_id;
    }

    pub fn change_filename(&mut self, new_filename: &str)
        ensures
            final(self)@ == (old(self)@.0, new_filename@),
    {
        self.filename = String::from_str(new_filename);
    }
}


/// The registry of source files, searched by file id.
pub struct Compiler {
    pub source_files: Vec<FileData>,
}

/// `i` is the first index of `files` whose file id is `file_id`.
pub open spec fn first_with_id(files: Seq<FileData>, file_id: u16, i: int) -> bool {
    &&& 0 <= i < files.len()
    &&& files[i]@.0 == file_id
    &&& forall|j: int| 0 <= j < i ==> #[trigger] files[j]@.0 != file_id
}

/// Some file of `files` has the id `file_id`.
pub open spec fn has_file_id(files: Seq<FileData>, file_id: u16) -> bool {
    exists|i: int| 0 <= i < files.len() && #[trigger] files[i]@.0 == file_id
}

/// The name of the first file of `files` with id `file_id`, if any.
pub open spec fn name_of_id(files: Seq<FileData>, file_id: u16) -> Option<Seq<char>> {
    if has_file_id(files, file_id) {
        let i = choose|i: int| first_with_id(files, file_id, i);
        Some(files[i]@.1)
    } else {
        None
    }
}

/// There is at most one first index for an id.
pub proof fn lemma_first_with_id_unique(files: Seq<FileData>, file_id: u16, i: int, j: int)
    requires
        first_with_id(files, file_id, i),
        first_with_id(files, file_id, j),
    ensures
        i == j,
{
}

/// No two files of `files` share an id.
pub open spec fn ids_distinct(files: Seq<FileData>) -> bool {
    forall|i: int, j: int|
        0 <= i < j < files.len() ==> #[trigger] files[i]@.0 != #[trigger] files[j]@.0
}

/// A file that `add_file` accepted is found again by its id: it is present
/// and its name is the one registered.
pub proof fn law_added_file_is_found(files: Seq<FileData>, file: FileData)
    requires
        !has_file_id(files, file@.0),
    ensures
        has_file_id(files.push(file), file@.0),
        name_of_id(files.push(file), file@.0) == Some(file@.1),
{
    let all = files.push(file);
    let n = files.len() as int;
    assert(all[n] == file);
    assert(first_with_id(all, file@.0, n)) by {
        assert forall|j: int| 0 <= j < n implies #[trigger] all[j]@.0 != file@.0 by {
            assert(all[j] == files[j]);
        }
    }
    let k = choose|k: int| first_with_id(all, file@.0, k);
    lemma_first_with_id_unique(all, file@.0, n, k);
}

/// A registry filled only through `add_file` never holds two files with one id.
pub proof fn law_add_keeps_ids_distinct(files: Seq<FileData>, file: FileData)
    requires
        ids_distinct(files),
        !has_file_id(files, file@.0),
    ensures
        ids_distinct(files.push(file)),
{
    let all = files.push(file);
    assert forall|i: int, j: int| 0 <= i < j < all.len() implies #[trigger] all[i]@.0
        != #[trigger] all[j]@.0 by {
        assert(all[i] == files[i]);
        if j < files.len() {
            assert(all[j] == files[j]);
        } else {
            assert(all[j] == file);
        }
    }
}

impl Compiler {
    pub fn new() -> (r: Self)
        ensures
            r.source_files@.len() == 0,
    {
        Compiler { source_files: Vec::new() }
    }

    pub fn is_file_present(&self, file_id: u16) -> (r: bool)
        ensures
            r == has_file_id(self.source_files@, file_id),
    {
        let n = self.source_files.len();
        for i in 0..n
            invariant
                n == self.source_files@.len(),
                forall|j: int| 0 <= j < i ==> #[trigger] self.source_files@[j]@.0 != file_id,
        {
            if self.source_files[i].get_file_id() == file_id {
                return true;
            }
        }
        false
    }

    /// Registers `file` unless a file with its id is already present.
    pub fn add_file(&mut self, file: FileData) -> (r: bool)
        ensures
            r == !has_file_id(old(self).source_files@, file@.0),
            r ==> final(self).source_files@ == old(self).source_files@.push(file),
            !r ==> final(self).source_files@ == old(self).source_files@,
    {
        if self.is_file_present(file.file_id) == false {
            self.source_files.push(file);
            return true;
        }
        return false;
    }

    pub fn get_filename(&self, file_id: u16) -> (r: Option<String>)
        ensures
            match r {
                Some(s) => name_of_id(self.source_files@, file_id) == Some(s@),
                None => name_of_id(self.source_files@, file_id) is None,
            },
    {
        let n = self.source_files.len();
        for i in 0..n
            invariant
                n == self.source_files@.len(),
                forall|j: int| 0 <= j < i ==> #[trigger] self.source_files@[j]@.0 != file_id,
        {
            if self.source_files[i].get_file_id() == file_id {
                proof {
                    let files = self.source_files@;
                    assert(first_with_id(files, file_id, i as int));
                    assert(has_file_id(files, file_id));
                    let k = choose|k: int| first_with_id(files, file_id, k);
                    lemma_first_with_id_unique(files, file_id, i as int, k);
                }
                return Some(self.source_files[i].get_filename());
            }
        }
        None
    }
}


// ---------------------------------------------------------------------------
// Lines of a source text, for error reports
// ---------------------------------------------------------------------------

/// The end of the line that starts at `i`: the index of the next `\n`, or
/// the end of the text.
pub open spec fn line_end(s: Seq<char>, i: int) -> int
    decreases s.len() - i,
{
    if i >= s.len() {
        s.len() as int
    } else if s[i] == '\n' {
        i
    } else {
        line_end(s, i + 1)
    }
}

/// The text of the line from `start` to `end`, without its line ending: a
/// `\r` right before the `\n` goes with it.
pub open spec fn line_text(s: Seq<char>, start: int, end: int) -> Seq<char> {
    if end < s.len() && end > start && s[end - 1] == '\r' {
        s.subrange(start, end - 1)
    } else {
        s.subrange(start, end)
    }
}

/// The line `n` lines after the one that starts at `start` (as `str::lines`
/// splits them), if the text has it.
pub open spec fn nth_line(s: Seq<char>, start: int, n: nat) -> Option<Seq<char>>
    decreases s.len() - start,
{
    if start < 0 || start >= s.len() {
        None
    } else {
        let e = line_end(s, start);
        if n == 0 {
            Some(line_text(s, start, e))
        } else if start <= e < s.len() {
            nth_line(s, e + 1, (n - 1) as nat)
        } else {
            None
        }
    }
}

proof fn lemma_line_end_bounds(s: Seq<char>, i: int)
    requires
        0 <= i,
    ensures
        i <= line_end(s, i) || i > s.len(),
        line_end(s, i) <= s.len(),
        line_end(s, i) < s.len() ==> s[line_end(s, i)] == '\n',
        forall|j: int| i <= j < line_end(s, i) ==> s[j] != '\n',
    decreases s.len() - i,
{
    if i < s.len() && s[i] != '\n' {
        lemma_line_end_bounds(s, i + 1);
    }
}

/// The line numbered `line_no` (from 1) of a source text, as error reports
/// quote it; `None` when the text has no such line.
pub fn source_line(contents: &str, line_no: usize) -> (r: Option<String>)
    ensures
        match r {
            Some(line) => line_no >= 1 && nth_line(contents@, 0, (line_no - 1) as nat) == Some(
                line@,
            ),
            None => line_no == 0 || nth_line(contents@, 0, (line_no - 1) as nat) is None,
        },
{
    if line_no == 0 {
        return None;
    }
    let s = chars_of(contents);
    let ghost whole = s@;
    let n = s.len();
    let mut start: usize = 0;
    let mut current: usize = 1;
    while start < n
        invariant
            whole == s@,
            whole == contents@,
            n == s@.len(),
            1 <= current <= line_no,
            start <= n,
            nth_line(whole, 0, (line_no - 1) as nat) == nth_line(
                whole,
                start as int,
                (line_no - current) as nat,
            ),
        decreases n - start,
    {
        let mut end = start;
        while end < n && s[end] != '\n'
            invariant
                start <= end <= n,
                n == s@.len(),
                line_end(s@, start as int) == line_end(s@, end as int),
            decreases n - end,
        {
            end = end + 1;
        }
        proof {
            lemma_line_end_bounds(s@, start as int);
            assert(line_end(s@, end as int) == end);
            assert(line_end(s@, start as int) == end);
        }
        if current == line_no {
            let text_end = if end < n && end > start && s[end - 1] == '\r' {
                end - 1
            } else {
                end
            };
            let mut piece: Vec<char> = Vec::new();
            let mut i = start;
            while i < text_end
                invariant
                    start <= i <= text_end <= n,
                    n == s@.len(),
                    piece@ == s@.subrange(start as int, i as int),
                decreases text_end - i,
            {
                piece.push(s[i]);
                i = i + 1;
            }
            assert(piece@ == line_text(whole, start as int, end as int));
            return Some(string_from_chars(piece.as_slice()));
        }
        if end == n {
            return None;
        }
        start = end + 1;
        current = current + 1;
    }
    None
}

} // verus!
