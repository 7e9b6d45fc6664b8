use vstd::prelude::*;
use vstd::string::*;
use crate::paths;
use crate::text;
use crate::text::chars_of;

verus! {

broadcast use vstd::string::group_string_axioms;

/// The number of `\n` bytes in `s`.
pub open spec fn newline_count(s: Seq<u8>) -> nat
    decreases s.len(),
{
    if s.len() == 0 {
        0
    } else {
        newline_count(s.drop_last()) + if s.last() == 10u8 {
            1nat
        } else {
            0nat
        }
    }
}

/// The number of lines of `s`: its `\n` bytes, and one more for a last line
/// that does not end in `\n`.
pub open spec fn line_count(s: Seq<u8>) -> nat {
    newline_count(s) + if s.len() > 0 && s.last() != 10u8 {
        1nat
    } else {
        0nat
    }
}

/// Counting newlines adds up over pieces: the `\n` bytes of `a + b` are
/// those of `a` and those of `b`. So a file read in chunks of any size gives
/// the same line count as the whole file at once.
pub proof fn newline_count_adds_up(a: Seq<u8>, b: Seq<u8>)
    ensures
        newline_count(a + b) == newline_count(a) + newline_count(b),
    decreases b.len(),
{
    if b.len() == 0 {
        assert(a + b =~= a);
    } else {
        newline_count_adds_up(a, b.drop_last());
        assert((a + b).drop_last() =~= a + b.drop_last());
    }
}

proof fn lemma_newline_count_bound(s: Seq<u8>)
    ensures
        newline_count(s) <= s.len(),
        line_count(s) <= s.len(),
    decreases s.len(),
{
    if s.len() > 0 {
        lemma_newline_count_bound(s.drop_last());
    }
}

/// Counts the lines of a byte stream that arrives in chunks.
pub struct LineCounter {
    count: usize,
    last_byte: Option<u8>,
    seen: Ghost<Seq<u8>>,
}

impl View for LineCounter {
    type V = Seq<u8>;

    /// The bytes fed so far.
    closed spec fn view(&self) -> Seq<u8> {
        self.seen@
    }
}

impl LineCounter {
    /// The counter agrees with the bytes fed so far.
    pub closed spec fn well_formed(&self) -> bool {
        &&& self.count == newline_count(self.seen@)
        &&& self.last_byte == if self.seen@.len() > 0 {
            Some(self.seen@.last())
        } else {
            None
        }
    }

    /// A counter that has seen nothing.
    pub fn new() -> (r: Self)
        ensures
            r.well_formed(),
            r@ == Seq::<u8>::empty(),
    {
        LineCounter { count: 0, last_byte: None, seen: Ghost(Seq::empty()) }
    }

    /// The number of `\n` bytes fed so far.
    pub fn newlines(&self) -> (r: usize)
        requires
            self.well_formed(),
        ensures
            r == newline_count(self@),
    {
        self.count
    }

    /// Feeds the next chunk of bytes. The count of `\n` must fit in a `usize`.
    pub fn feed(&mut self, chunk: &[u8])
        requires
            old(self).well_formed(),
            newline_count(old(self)@ + chunk@) <= usize::MAX,
        ensures
            final(self).well_formed(),
            final(self)@ == old(self)@ + chunk@,
    {
        let ghost start = self.seen@;
        let n = chunk.len();
        let mut i: usize = 0;
        proof {
            assert(start + chunk@.take(0) =~= start);
            newline_count_adds_up(start, chunk@);
        }
        while i < n
            invariant
                n == chunk@.len(),
                0 <= i <= n,
                start == old(self)@,
                newline_count(start + chunk@) <= usize::MAX,
                newline_count(start + chunk@) == newline_count(start) + newline_count(chunk@),
                self.seen@ == start + chunk@.take(i as int),
                self.well_formed(),
            decreases n - i,
        {
            let b = chunk[i];
            proof {
                let prev = start + chunk@.take(i as int);
                let next = start + chunk@.take(i + 1);
                assert(chunk@.take(i + 1) =~= chunk@.take(i as int).push(b));
                assert(next =~= prev.push(b));
                assert(next.drop_last() =~= prev);
                assert(newline_count(next) == newline_count(prev) + if b == 10u8 { 1nat } else { 0nat });
                assert(chunk@.take(i + 1) + chunk@.skip(i + 1) =~= chunk@);
                newline_count_adds_up(start, chunk@.take(i + 1));
                newline_count_adds_up(chunk@.take(i + 1), chunk@.skip(i + 1));
                assert(newline_count(next) <= newline_count(start + chunk@));
            }
            if b == 10u8 {
                self.count = self.count + 1;
            }
            self.last_byte = Some(b);
            self.seen = Ghost(start + chunk@.take(i + 1));
            i = i + 1;
        }
        assert(chunk@.take(n as int) =~= chunk@);
    }

    /// Feeds the next chunk when the count of `\n` then still fits in a
    /// `usize` (answering `true`); else leaves the counter as it was and
    /// answers `false`.
    pub fn try_feed(&mut self, chunk: &[u8]) -> (ok: bool)
        requires
            old(self).well_formed(),
        ensures
            final(self).well_formed(),
            ok == (newline_count(old(self)@ + chunk@) <= usize::MAX),
            ok ==> final(self)@ == old(self)@ + chunk@,
            !ok ==> final(self)@ == old(self)@,
    {
        let room = usize::MAX - self.count;
        let n = chunk.len();
        let mut i: usize = 0;
        let mut k: usize = 0;
        proof {
            assert(chunk@.take(0) =~= Seq::<u8>::empty());
            newline_count_adds_up(self.seen@, chunk@);
        }
        while i < n
            invariant
                n == chunk@.len(),
                0 <= i <= n,
                k == newline_count(chunk@.take(i as int)),
                k <= room,
                room == usize::MAX - self.count,
                self.well_formed(),
                newline_count(self.seen@ + chunk@) == newline_count(self.seen@) + newline_count(chunk@),
            decreases n - i,
        {
            let b = chunk[i];
            proof {
                assert(chunk@.take(i + 1) =~= chunk@.take(i as int).push(b));
                assert(chunk@.take(i + 1).drop_last() =~= chunk@.take(i as int));
            }
            if b == 10u8 {
                if k == room {
                    proof {
                        assert(chunk@.take(i + 1) + chunk@.skip(i + 1) =~= chunk@);
                        newline_count_adds_up(chunk@.take(i + 1), chunk@.skip(i + 1));
                    }
                    return false;
                }
                k = k + 1;
            }
            i = i + 1;
        }
        proof {
            assert(chunk@.take(n as int) =~= chunk@);
        }
        self.feed(chunk);
        true
    }

    /// Whether the number of lines fed so far fits in a `usize`, so that
    /// `total` may be asked.
    pub fn total_fits(&self) -> (r: bool)
        requires
            self.well_formed(),
        ensures
            r == (line_count(self@) <= usize::MAX),
    {
        match self.last_byte {
            Some(b) => b == 10u8 || self.count < usize::MAX,
            None => true,
        }
    }

    /// The number of lines fed so far (see `line_count`).
    pub fn total(&self) -> (r: usize)
        requires
            self.well_formed(),
            line_count(self@) <= usize::MAX,
        ensures
            r == line_count(self@),
    {
        match self.last_byte {
            Some(b) => if b != 10u8 {
                self.count + 1
            } else {
                self.count
            },
            None => self.count,
        }
    }
}

/// The number of lines of `bytes` (see `line_count`).
pub fn count_lines(bytes: &[u8]) -> (r: usize)
    ensures
        r == line_count(bytes@),
{
    proof {
        lemma_newline_count_bound(bytes@);
        assert(Seq::<u8>::empty() + bytes@ =~= bytes@);
    }
    let mut counter = LineCounter::new();
    assert(bytes@.len() == bytes.len());
    assert(counter@ + bytes@ =~= bytes@);
    counter.feed(bytes);
    counter.total()
}


/// The running total of lines after a file of `lines` lines; `None` where
/// it would not fit in a `usize`.
pub fn add_file_lines(total: usize, lines: usize) -> (r: Option<usize>)
    ensures
        match r {
            Some(t) => t == total + lines,
            None => total + lines > usize::MAX,
        },
{
    total.checked_add(lines)
}

/// What the directory walk does with an entry.
#[derive(Debug, Clone, Copy, PartialEq, Eq, Structural)]
pub enum EntryAction {
    /// Leave it out.
    Skip,
    /// Walk into the directory.
    Descend,
    /// Count the lines of the file.
    Count,
}

/// Directories the walk leaves out.
pub open spec fn skipped_dir_name(name: Seq<char>) -> bool {
    name == ".git"@ || name == ".venv"@ || name == "node_modules"@ || name == "__pycache__"@
}

/// Files the walk leaves out: spreadsheets, by extension in any ASCII case.
pub open spec fn skipped_extension(ext: Option<Seq<char>>) -> bool {
    match ext {
        Some(e) => text::eq_ignore_ascii_case(e, "xls"@) || text::eq_ignore_ascii_case(e, "xlsx"@),
        None => false,
    }
}

/// What the walk does with an entry named `name` whose extension is `ext`:
/// symbolic links are left out, directories walked into unless their name
/// is one of the skipped ones, files counted unless they are spreadsheets,
/// anything else left out.
pub open spec fn entry_action_with(
    is_symlink: bool,
    is_dir: bool,
    is_file: bool,
    name: Seq<char>,
    ext: Option<Seq<char>>,
) -> EntryAction {
    if is_symlink {
        EntryAction::Skip
    } else if is_dir {
        if skipped_dir_name(name) {
            EntryAction::Skip
        } else {
            EntryAction::Descend
        }
    } else if is_file {
        if skipped_extension(ext) {
            EntryAction::Skip
        } else {
            EntryAction::Count
        }
    } else {
        EntryAction::Skip
    }
}

/// Only the four tool directories are left out of the walk: a directory
/// that is not a symbolic link is skipped when it is named `.git`, `.venv`,
/// `node_modules` or `__pycache__`, and walked into under any other name,
/// whatever its extension.
pub proof fn only_tool_directories_are_skipped(is_file: bool, name: Seq<char>, ext: Option<Seq<char>>)
    ensures
        entry_action_with(false, true, is_file, name, ext) == if name == ".git"@ || name == ".venv"@ || name
            == "node_modules"@ || name == "__pycache__"@ {
            EntryAction::Skip
        } else {
            EntryAction::Descend
        },
        entry_action(false, true, is_file, name) == if name == ".git"@ || name == ".venv"@ || name
            == "node_modules"@ || name == "__pycache__"@ {
            EntryAction::Skip
        } else {
            EntryAction::Descend
        },
{
}

/// What the walk does with an entry named `name`, its extension being the
/// one `Path::extension` finds in the name (see `entry_action_with`).
pub open spec fn entry_action(is_symlink: bool, is_dir: bool, is_file: bool, name: Seq<char>) -> EntryAction {
    entry_action_with(is_symlink, is_dir, is_file, name, paths::path_extension(name))
}

/// Decides what the walk does with a directory entry named `name` whose
/// extension is `extension` (see `entry_action_with`).
pub fn action_for_entry(is_symlink: bool, is_dir: bool, is_file: bool, name: &str, extension: Option<String>) -> (r: EntryAction)
    ensures
        r == entry_action_with(is_symlink, is_dir, is_file, name@, paths::opt_text(extension)),
{
    if is_symlink {
        return EntryAction::Skip;
    }
    if is_dir {
        let n = name.to_owned();
        let skipped = n == ".git".to_owned() || n == ".venv".to_owned() || n == "node_modules".to_owned() || n
            == "__pycache__".to_owned();
        return if skipped {
            EntryAction::Skip
        } else {
            EntryAction::Descend
        };
    }
    if !is_file {
        return EntryAction::Skip;
    }
    match extension {
        Some(ext) => {
            let e = chars_of(ext.as_str());
            let xls = chars_of("xls");
            let xlsx = chars_of("xlsx");
            if text::chars_eq_ignore_ascii_case(e.as_slice(), xls.as_slice()) || text::chars_eq_ignore_ascii_case(e.as_slice(), xlsx.as_slice()) {
                EntryAction::Skip
            } else {
                EntryAction::Count
            }
        },
        None => EntryAction::Count,
    }
}

/// Decides what the walk does with a directory entry (see `entry_action`).
pub fn classify_entry(is_symlink: bool, is_dir: bool, is_file: bool, name: &str) -> (r: EntryAction)
    ensures
        r == entry_action(is_symlink, is_dir, is_file, name@),
{
    let extension = paths::extension_of(name);
    action_for_entry(is_symlink, is_dir, is_file, name, extension)
}

} // verus!
