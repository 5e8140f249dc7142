//! The shell: its users, the command line, and what each command decides.
//! Reading keys and printing stay with the kernel, which runs the loop.
use vstd::prelude::*;
use vstd::string::StrSliceExecFns;
use crate::ata::Disk;
use crate::reader_writer::ReaderWriter;
use crate::file_system::{FileSystem, FsError, formatted, spans_too_many_blocks, type_at_path, resolve, dir_entries_at,
    inode_at, content_of, is_io_error, slash_before, fs_wf, CreateOutcome, inode_in_use, entries_in_table,
    simple_path, entry_resolves_in_its_directory, lemma_slash_before_range, lemma_resolve_in_table,
    lemma_resolve_after_insert, lemma_resolve_join, lemma_resolve_frame, formatted_entries_in_table, FS_SIZE,
    lemma_resolve_errors, lemma_resolve_fits, lemma_resolve_after_remove, BLOCKS_OFFSET, free_for_inode, listing_fits, block_count, missing_entry_is_unknown, dir_names_plain, free_inodes_empty, formatted_is_tidy, plain_entries,
    points_into_table, plain_keys, lemma_removal_fits, progress_step};
use crate::dir_entries::{DirEntries, is_listing, listing_view, plain_name, decode_dir};
use crate::inode::{InodeType, InodeView};
use crate::vga_buffer::{Writer, WriterView, ScreenChar, writer_wf};

verus! {

// ----- the command line -----

/// Whether `c` is white space in the sense of the Unicode White_Space
/// property.
pub open spec fn is_white(c: char) -> bool {
    ||| c == '\t' || c == '\n' || c == '\x0B' || c == '\x0C' || c == '\r' || c == ' '
    ||| c == '\u{85}' || c == '\u{A0}' || c == '\u{1680}'
    ||| ('\u{2000}' <= c && c <= '\u{200A}')
    ||| c == '\u{2028}' || c == '\u{2029}' || c == '\u{202F}' || c == '\u{205F}' || c == '\u{3000}'
}

fn white(c: char) -> (b: bool)
    ensures
        b == is_white(c),
{
    c == '\t' || c == '\n' || c == '\x0B' || c == '\x0C' || c == '\r' || c == ' ' || c == '\u{85}' || c
        == '\u{A0}' || c == '\u{1680}' || ('\u{2000}' <= c && c <= '\u{200A}') || c == '\u{2028}' || c
        == '\u{2029}' || c == '\u{202F}' || c == '\u{205F}' || c == '\u{3000}'
}

/// The first position from `i` on that holds no white space, or the end.
pub open spec fn skip_white(s: Seq<char>, i: int) -> int
    decreases s.len() - i,
{
    if i < 0 || i >= s.len() {
        i
    } else if !is_white(s[i]) {
        i
    } else {
        skip_white(s, i + 1)
    }
}

/// The end of `s[..j]` without its trailing white space.
pub open spec fn trim_end_at(s: Seq<char>, j: int) -> int
    decreases j,
{
    if j <= 0 || j > s.len() {
        0
    } else if !is_white(s[j - 1]) {
        j
    } else {
        trim_end_at(s, j - 1)
    }
}

/// `s` without leading and trailing white space.
pub open spec fn trim_spec(s: Seq<char>) -> Seq<char> {
    let a = skip_white(s, 0);
    let b = trim_end_at(s, s.len() as int);
    if a < b {
        s.subrange(a, b)
    } else {
        Seq::empty()
    }
}

/// The first space of `s` from position `k` on.
pub open spec fn space_from(s: Seq<char>, k: int) -> Option<int>
    decreases s.len() - k,
{
    if k < 0 || k >= s.len() {
        None
    } else if s[k] == ' ' {
        Some(k)
    } else {
        space_from(s, k + 1)
    }
}

/// The pieces of `s` between single spaces, empty ones included.
pub open spec fn split_spaces(s: Seq<char>) -> Seq<Seq<char>>
    decreases s.len(),
{
    match space_from(s, 0) {
        None => seq![s],
        Some(k) => if 0 <= k < s.len() {
            seq![s.take(k)] + split_spaces(s.skip(k + 1))
        } else {
            seq![s]
        },
    }
}

proof fn lemma_skip_white_range(s: Seq<char>, i: int)
    requires
        0 <= i <= s.len(),
    ensures
        i <= skip_white(s, i) <= s.len(),
    decreases s.len() - i,
{
    if i < s.len() && is_white(s[i]) {
        lemma_skip_white_range(s, i + 1);
    }
}

proof fn lemma_trim_end_range(s: Seq<char>, j: int)
    requires
        0 <= j <= s.len(),
    ensures
        0 <= trim_end_at(s, j) <= j,
    decreases j,
{
    if j > 0 && is_white(s[j - 1]) {
        lemma_trim_end_range(s, j - 1);
    }
}

/// `s` without leading and trailing white space.
pub fn trim(s: &str) -> (t: &str)
    ensures
        t@ == trim_spec(s@),
{
    let len = s.unicode_len();
    let mut a: usize = 0;
    while a < len && white(s.get_char(a))
        invariant
            a <= len,
            len == s@.len(),
            skip_white(s@, 0) == skip_white(s@, a as int),
        decreases len - a,
    {
        a += 1;
    }
    let mut b: usize = len;
    while b > 0 && white(s.get_char(b - 1))
        invariant
            b <= len,
            len == s@.len(),
            trim_end_at(s@, len as int) == trim_end_at(s@, b as int),
        decreases b,
    {
        b -= 1;
    }
    if a < b {
        s.substring_char(a, b)
    } else {
        let t = s.substring_char(0, 0);
        proof {
            assert(t@ =~= Seq::<char>::empty());
        }
        t
    }
}

proof fn lemma_space_from_range(s: Seq<char>, k: int)
    requires
        0 <= k,
    ensures
        space_from(s, k) matches Some(j) ==> k <= j < s.len(),
    decreases s.len() - k,
{
    if k < s.len() && s[k] != ' ' {
        lemma_space_from_range(s, k + 1);
    }
}

/// The pieces of `s` between single spaces, empty ones included.
pub fn split_spaces_of(s: &str) -> (pieces: Vec<String>)
    ensures
        pieces@.map_values(|p: String| p@) == split_spaces(s@),
{
    let mut pieces: Vec<String> = Vec::new();
    let mut rest: &str = s;
    let ghost done: Seq<Seq<char>> = Seq::empty();
    loop
        invariant
            pieces@.map_values(|p: String| p@) == done,
            done + split_spaces(rest@) == split_spaces(s@),
        decreases rest@.len(),
    {
        let len = rest.unicode_len();
        let mut k: usize = 0;
        while k < len && rest.get_char(k) != ' '
            invariant
                k <= len,
                len == rest@.len(),
                space_from(rest@, 0) == space_from(rest@, k as int),
            decreases len - k,
        {
            k += 1;
        }
        if k == len {
            proof {
                assert(space_from(rest@, k as int) is None);
                assert(split_spaces(rest@) == seq![rest@]);
            }
            pieces.push(rest.to_owned());
            proof {
                assert(pieces@.map_values(|p: String| p@) =~= done.push(rest@));
                assert(done + split_spaces(rest@) =~= done.push(rest@));
            }
            return pieces;
        }
        let piece = rest.substring_char(0, k);
        let next = rest.substring_char(k + 1, len);
        proof {
            lemma_space_from_range(rest@, 0);
            assert(split_spaces(rest@) == seq![rest@.take(k as int)] + split_spaces(rest@.skip(k + 1)));
            assert(piece@ =~= rest@.take(k as int));
            assert(next@ =~= rest@.skip(k + 1));
        }
        pieces.push(piece.to_owned());
        proof {
            assert(pieces@.map_values(|p: String| p@) =~= done.push(piece@));
            assert(done.push(piece@) + split_spaces(next@) =~= done + split_spaces(rest@));
            done = done.push(piece@);
        }
        rest = next;
    }
}

/// Whether two strings hold the same characters.
pub fn str_equal(a: &str, b: &str) -> (eq: bool)
    ensures
        eq == (a@ == b@),
{
    let la = a.unicode_len();
    let lb = b.unicode_len();
    if la != lb {
        return false;
    }
    let mut i: usize = 0;
    while i < la
        invariant
            i <= la,
            la == a@.len(),
            lb == b@.len(),
            la == lb,
            forall|j: int| 0 <= j < i ==> a@[j] == b@[j],
        decreases la - i,
    {
        if a.get_char(i) != b.get_char(i) {
            return false;
        }
        i += 1;
    }
    proof {
        assert(a@ =~= b@);
    }
    true
}

/// The commands of the shell.
#[derive(PartialEq, Eq, Structural, Clone, Copy, Debug)]
pub enum Command {
    Help,
    Sleep,
    Echo,
    Clear,
    Ls,
    Cat,
    Mkdir,
    Touch,
    Edit,
    Rm,
    AddUser,
    DelUser,
    LsUsers,
    Logout,
    /// No command was typed.
    Empty,
    /// The name is none of the commands.
    Unsupported,
}

/// The command a name stands for.
pub open spec fn command_named(name: Seq<char>) -> Command {
    if name.len() == 0 {
        Command::Empty
    } else if name == "help"@ {
        Command::Help
    } else if name == "sleep"@ {
        Command::Sleep
    } else if name == "echo"@ {
        Command::Echo
    } else if name == "clear"@ || name == "cls"@ {
        Command::Clear
    } else if name == "ls"@ {
        Command::Ls
    } else if name == "cat"@ {
        Command::Cat
    } else if name == "mkdir"@ {
        Command::Mkdir
    } else if name == "touch"@ {
        Command::Touch
    } else if name == "edit"@ {
        Command::Edit
    } else if name == "rm"@ {
        Command::Rm
    } else if name == "adduser"@ {
        Command::AddUser
    } else if name == "deluser"@ {
        Command::DelUser
    } else if name == "lsusers"@ {
        Command::LsUsers
    } else if name == "logout"@ {
        Command::Logout
    } else {
        Command::Unsupported
    }
}

/// Each command word of the shell names its own command: "help", "sleep",
/// "echo", "clear" and "cls", "ls", "cat", "mkdir", "touch", "edit", "rm",
/// "adduser", "deluser", "lsusers" and "logout".
pub proof fn command_words()
    ensures
        command_named("help"@) == Command::Help,
        command_named("sleep"@) == Command::Sleep,
        command_named("echo"@) == Command::Echo,
        command_named("clear"@) == Command::Clear,
        command_named("cls"@) == Command::Clear,
        command_named("ls"@) == Command::Ls,
        command_named("cat"@) == Command::Cat,
        command_named("mkdir"@) == Command::Mkdir,
        command_named("touch"@) == Command::Touch,
        command_named("edit"@) == Command::Edit,
        command_named("rm"@) == Command::Rm,
        command_named("adduser"@) == Command::AddUser,
        command_named("deluser"@) == Command::DelUser,
        command_named("lsusers"@) == Command::LsUsers,
        command_named("logout"@) == Command::Logout,
        command_named(Seq::empty()) == Command::Empty,
{
    reveal_strlit("help");
    reveal_strlit("sleep");
    reveal_strlit("echo");
    reveal_strlit("clear");
    reveal_strlit("cls");
    reveal_strlit("ls");
    reveal_strlit("cat");
    reveal_strlit("mkdir");
    reveal_strlit("touch");
    reveal_strlit("edit");
    reveal_strlit("rm");
    reveal_strlit("adduser");
    reveal_strlit("deluser");
    reveal_strlit("lsusers");
    reveal_strlit("logout");
    assert("help"@[0] == 'h');
    assert("sleep"@[0] == 's');
    assert("echo"@[0] == 'e');
    assert("clear"@[0] == 'c');
    assert("cls"@[0] == 'c');
    assert("ls"@[0] == 'l');
    assert("cat"@[0] == 'c');
    assert("mkdir"@[0] == 'm');
    assert("touch"@[0] == 't');
    assert("edit"@[0] == 'e');
    assert("rm"@[0] == 'r');
    assert("adduser"@[0] == 'a');
    assert("deluser"@[0] == 'd');
    assert("lsusers"@[0] == 'l');
    assert("logout"@[0] == 'l');
    assert("echo"@[1] == 'c');
    assert("edit"@[1] == 'd');
    assert("cls"@[1] == 'l');
    assert("cat"@[1] == 'a');
}

/// Two different words never name the same command, but for the two names
/// of `clear` and the words that name no command.
pub proof fn distinct_words_distinct_commands(a: Seq<char>, b: Seq<char>)
    requires
        command_named(a) == command_named(b),
        command_named(a) != Command::Unsupported,
        command_named(a) != Command::Clear,
    ensures
        a == b,
{
}

/// A typed line whose first word is a command word runs that command, with
/// the other words as its arguments.
pub proof fn line_runs_its_first_word(input: Seq<char>)
    ensures
        ({
            let words = split_spaces(trim_spec(input));
            &&& words[0] == "touch"@ ==> command_named(words[0]) == Command::Touch
            &&& words[0] == "mkdir"@ ==> command_named(words[0]) == Command::Mkdir
            &&& words[0] == "rm"@ ==> command_named(words[0]) == Command::Rm
            &&& words[0] == "edit"@ ==> command_named(words[0]) == Command::Edit
            &&& words[0] == "cat"@ ==> command_named(words[0]) == Command::Cat
            &&& words[0] == "ls"@ ==> command_named(words[0]) == Command::Ls
        }),
{
    command_words();
}

/// The command a name stands for.
pub fn command_of(name: &str) -> (c: Command)
    ensures
        c == command_named(name@),
{
    if name.unicode_len() == 0 {
        Command::Empty
    } else if str_equal(name, "help") {
        Command::Help
    } else if str_equal(name, "sleep") {
        Command::Sleep
    } else if str_equal(name, "echo") {
        Command::Echo
    } else if str_equal(name, "clear") || str_equal(name, "cls") {
        Command::Clear
    } else if str_equal(name, "ls") {
        Command::Ls
    } else if str_equal(name, "cat") {
        Command::Cat
    } else if str_equal(name, "mkdir") {
        Command::Mkdir
    } else if str_equal(name, "touch") {
        Command::Touch
    } else if str_equal(name, "edit") {
        Command::Edit
    } else if str_equal(name, "rm") {
        Command::Rm
    } else if str_equal(name, "adduser") {
        Command::AddUser
    } else if str_equal(name, "deluser") {
        Command::DelUser
    } else if str_equal(name, "lsusers") {
        Command::LsUsers
    } else if str_equal(name, "logout") {
        Command::Logout
    } else {
        Command::Unsupported
    }
}

/// A typed line: white space is trimmed, the rest split at single spaces;
/// the first piece names the command, the others are its arguments.
pub fn parse_command(input: &str) -> (r: (Command, Vec<String>))
    ensures
        ({
            let words = split_spaces(trim_spec(input@));
            &&& r.0 == command_named(words[0])
            &&& r.1@.map_values(|p: String| p@) == words.drop_first()
        }),
{
    let line = trim(input);
    let mut words = split_spaces_of(line);
    proof {
        reveal_with_fuel(split_spaces, 1);
        assert(split_spaces(line@).len() >= 1) by {
            lemma_split_nonempty(line@);
        }
    }
    let first = words.remove(0);
    let c = command_of(first.as_str());
    proof {
        assert(words@.map_values(|p: String| p@) =~= split_spaces(line@).drop_first());
    }
    (c, words)
}

proof fn lemma_split_nonempty(s: Seq<char>)
    ensures
        split_spaces(s).len() >= 1,
{
}

// ----- numbers -----

/// The value of a string of decimal digits.
pub open spec fn digits_value(s: Seq<char>) -> int
    decreases s.len(),
{
    if s.len() == 0 {
        0
    } else {
        10 * digits_value(s.drop_last()) + (s.last() as int - '0' as int)
    }
}

/// Whether every character of `s` is a decimal digit.
pub open spec fn all_digits(s: Seq<char>) -> bool {
    forall|i: int| 0 <= i < s.len() ==> '0' <= #[trigger] s[i] <= '9'
}

/// The number `s` writes as 64-bit unsigned text: an optional `+`, then at
/// least one decimal digit, of a value that fits in 64 bits.
pub open spec fn parse_u64_spec(s: Seq<char>) -> Option<u64> {
    let t = if s.len() > 0 && s[0] == '+' {
        s.drop_first()
    } else {
        s
    };
    if t.len() > 0 && all_digits(t) && digits_value(t) <= u64::MAX {
        Some(digits_value(t) as u64)
    } else {
        None
    }
}

proof fn lemma_digits_value_prefix(t: Seq<char>, k: int)
    requires
        all_digits(t),
        0 <= k <= t.len(),
    ensures
        0 <= digits_value(t.take(k)) <= digits_value(t),
    decreases t.len(),
{
    if k == t.len() {
        assert(t.take(k) =~= t);
        if t.len() > 0 {
            lemma_digits_value_prefix(t.drop_last(), k - 1);
            assert(t.drop_last().take(k - 1) =~= t.drop_last());
        }
    } else {
        lemma_digits_value_prefix(t.drop_last(), k);
        assert(t.drop_last().take(k) =~= t.take(k));
        lemma_digits_value_prefix(t.drop_last(), t.len() - 1);
        assert(t.drop_last().take(t.len() - 1) =~= t.drop_last());
    }
}

/// Reads `s` as 64-bit unsigned text.
pub fn parse_u64(s: &str) -> (r: Option<u64>)
    ensures
        r == parse_u64_spec(s@),
{
    let len = s.unicode_len();
    let mut start: usize = 0;
    if len > 0 && s.get_char(0) == '+' {
        start = 1;
    }
    let ghost t = if s@.len() > 0 && s@[0] == '+' {
        s@.drop_first()
    } else {
        s@
    };
    assert(t =~= s@.skip(start as int));
    if start == len {
        return None;
    }
    let mut value: u64 = 0;
    let mut i: usize = start;
    while i < len
        invariant
            start <= i <= len,
            start < len,
            len == s@.len(),
            t == s@.skip(start as int),
            t == (if s@.len() > 0 && s@[0] == '+' {
                s@.drop_first()
            } else {
                s@
            }),
            all_digits(t.take(i - start)),
            value == digits_value(t.take(i - start)),
        decreases len - i,
    {
        let c = s.get_char(i);
        let ghost j = i - start;
        assert(t[j] == c);
        if !('0' <= c && c <= '9') {
            assert(!all_digits(t));
            return None;
        }
        let d: u64 = ((c as u32) - ('0' as u32)) as u64;
        assert(t.take(j + 1).drop_last() =~= t.take(j));
        assert(digits_value(t.take(j + 1)) == 10 * value + d);
        assert(all_digits(t.take(j + 1)));
        if value > (u64::MAX - d) / 10 {
            proof {
                assert(10 * value + d > u64::MAX) by (nonlinear_arith)
                    requires value > (u64::MAX - d) / 10, d <= 9;
                if all_digits(t) {
                    lemma_digits_value_prefix(t, j + 1);
                }
            }
            return None;
        }
        assert(10 * value + d <= u64::MAX) by (nonlinear_arith)
            requires value <= (u64::MAX - d) / 10, d <= 9;
        value = value * 10 + d;
        i += 1;
    }
    assert(t.take(i - start) =~= t);
    Some(value)
}

/// The milliseconds `sleep` waits for the seconds written in `arg`: text
/// that is no number counts as 0; none when the product leaves 64 bits.
pub fn sleep_millis(arg: &str) -> (r: Option<u64>)
    ensures
        r == match parse_u64_spec(arg@) {
            Some(n) => if n * 1000 <= u64::MAX {
                Some((n * 1000) as u64)
            } else {
                None
            },
            None => Some(0u64),
        },
{
    let sec: u64 = match parse_u64(arg) {
        Some(n) => n,
        None => 0,
    };
    sec.checked_mul(1000)
}

// ----- users -----

/// An account: a name and a password.
pub struct User {
    username: String,
    password: String,
}

impl User {
    pub closed spec fn name(&self) -> Seq<char> {
        self.username@
    }

    pub closed spec fn secret(&self) -> Seq<char> {
        self.password@
    }

    pub fn new(username: &str, password: &str) -> (u: User)
        ensures
            u.name() == username@,
            u.secret() == password@,
    {
        User { username: username.to_owned(), password: password.to_owned() }
    }

    /// The account's name.
    pub fn username(&self) -> (n: &str)
        ensures
            n@ == self.name(),
    {
        self.username.as_str()
    }
}

/// The accounts as names and passwords.
pub open spec fn accounts_of(users: Seq<User>) -> Seq<(Seq<char>, Seq<char>)> {
    users.map_values(|u: User| (u.name(), u.secret()))
}

/// The first account named `name` from position `k` on.
pub open spec fn find_user(users: Seq<(Seq<char>, Seq<char>)>, name: Seq<char>, k: int) -> Option<int>
    decreases users.len() - k,
{
    if k < 0 || k >= users.len() {
        None
    } else if users[k].0 == name {
        Some(k)
    } else {
        find_user(users, name, k + 1)
    }
}

/// The first account named `name` whose password is `password`, from
/// position `k` on.
pub open spec fn find_login(users: Seq<(Seq<char>, Seq<char>)>, name: Seq<char>, password: Seq<char>, k: int) -> Option<int>
    decreases users.len() - k,
{
    if k < 0 || k >= users.len() {
        None
    } else if users[k].0 == name && users[k].1 == password {
        Some(k)
    } else {
        find_login(users, name, password, k + 1)
    }
}

/// Whether no two accounts share a name.
pub open spec fn names_unique(users: Seq<(Seq<char>, Seq<char>)>) -> bool {
    forall|i: int, j: int| 0 <= i < j < users.len() ==> #[trigger] users[i].0 != #[trigger] users[j].0
}

proof fn lemma_find_user(users: Seq<(Seq<char>, Seq<char>)>, name: Seq<char>, k: int)
    requires
        0 <= k,
    ensures
        find_user(users, name, k) matches Some(i) ==> k <= i < users.len() && users[i].0 == name,
        find_user(users, name, k) is None ==> forall|i: int| k <= i < users.len() ==> #[trigger] users[i].0
            != name,
    decreases users.len() - k,
{
    if k < users.len() && users[k].0 != name {
        lemma_find_user(users, name, k + 1);
    }
}

proof fn lemma_no_user_named(users: Seq<(Seq<char>, Seq<char>)>, name: Seq<char>, password: Seq<char>, k: int)
    requires
        0 <= k,
        forall|i: int| k <= i < users.len() ==> #[trigger] users[i].0 != name,
    ensures
        find_user(users, name, k) is None,
        find_login(users, name, password, k) is None,
    decreases users.len() - k,
{
    if k < users.len() {
        lemma_no_user_named(users, name, password, k + 1);
    }
}

proof fn lemma_find_login_skips(
    users: Seq<(Seq<char>, Seq<char>)>,
    name: Seq<char>,
    password: Seq<char>,
    k: int,
    n: int,
)
    requires
        0 <= k <= n <= users.len(),
        forall|i: int| k <= i < n ==> #[trigger] users[i].0 != name,
    ensures
        find_login(users, name, password, k) == find_login(users, name, password, n),
    decreases n - k,
{
    if k < n {
        lemma_find_login_skips(users, name, password, k + 1, n);
    }
}

/// An account just added, under a name no account had, logs in with its
/// password, and the login picks it.
pub proof fn added_user_can_log_in(users: Seq<(Seq<char>, Seq<char>)>, name: Seq<char>, password: Seq<char>)
    requires
        find_user(users, name, 0) is None,
    ensures
        find_login(users.push((name, password)), name, password, 0) == Some(users.len() as int),
{
    let u = users.push((name, password));
    lemma_find_user(users, name, 0);
    assert forall|i: int| 0 <= i < users.len() implies #[trigger] u[i].0 != name by {
        assert(u[i] == users[i]);
    }
    lemma_find_login_skips(u, name, password, 0, users.len() as int);
}

/// Once an account is deleted, when names are distinct, no account has its
/// name, so nobody logs in under it.
pub proof fn deleted_user_is_gone(users: Seq<(Seq<char>, Seq<char>)>, i: int, password: Seq<char>)
    requires
        names_unique(users),
        0 <= i < users.len(),
    ensures
        find_user(users.remove(i), users[i].0, 0) is None,
        find_login(users.remove(i), users[i].0, password, 0) is None,
{
    let u = users.remove(i);
    assert forall|j: int| 0 <= j < u.len() implies #[trigger] u[j].0 != users[i].0 by {
        if j < i {
            assert(u[j] == users[j]);
        } else {
            assert(u[j] == users[j + 1]);
        }
    }
    lemma_no_user_named(u, users[i].0, password, 0);
}

/// Adding an account only when no account has its name keeps the names
/// distinct.
pub proof fn add_user_keeps_names_unique(users: Seq<(Seq<char>, Seq<char>)>, name: Seq<char>, password: Seq<char>)
    requires
        names_unique(users),
        find_user(users, name, 0) is None,
    ensures
        names_unique(users.push((name, password))),
{
    lemma_find_user(users, name, 0);
    let u = users.push((name, password));
    assert forall|i: int, j: int| 0 <= i < j < u.len() implies #[trigger] u[i].0 != #[trigger] u[j].0 by {
        if j == users.len() {
            assert(users[i].0 != name);
        } else {
            assert(users[i].0 != users[j].0);
        }
    }
}

/// Deleting an account keeps the names distinct.
pub proof fn delete_user_keeps_names_unique(users: Seq<(Seq<char>, Seq<char>)>, i: int)
    requires
        names_unique(users),
        0 <= i < users.len(),
    ensures
        names_unique(users.remove(i)),
{
    let u = users.remove(i);
    assert forall|a: int, b: int| 0 <= a < b < u.len() implies #[trigger] u[a].0 != #[trigger] u[b].0 by {
        let a2 = if a < i { a } else { a + 1 };
        let b2 = if b < i { b } else { b + 1 };
        assert(u[a] == users[a2]);
        assert(u[b] == users[b2]);
    }
}

/// What `adduser` did.
#[derive(PartialEq, Eq, Structural, Clone, Copy, Debug)]
pub enum AddUserOutcome {
    /// Not exactly a name and a password were given.
    Usage,
    /// An account of that name exists.
    AlreadyExists,
    /// The account was added.
    Created,
}

/// What `deluser` decided before asking for the root password.
#[derive(PartialEq, Eq, Structural, Clone, Copy, Debug)]
pub enum DelUserStep {
    /// Not exactly one name was given.
    Usage,
    /// The name is root's.
    CannotDeleteRoot,
    /// The name is the current user's.
    CannotDeleteYourself,
    /// No account has that name.
    NoSuchUser,
    /// The account at this position is to go once root's password is given.
    AskRootPassword(usize),
}

// ----- file commands -----

/// What `ls` found.
pub enum LsOutcome {
    /// More than one path was given.
    Usage,
    /// The path names no directory.
    NotADir(String),
    /// The names in the directory, each once.
    Listing(Vec<String>),
}

/// What `cat` found.
pub enum CatOutcome {
    Usage,
    /// The path names no file.
    NotAFile,
    /// The file's content.
    Content(Vec<u8>),
}

/// What `mkdir` or `touch` did.
pub enum MakeOutcome {
    Usage,
    /// The directory part of the path names no directory.
    NotADir(String),
    /// The directory already has an entry of that name.
    AlreadyExists,
    /// The entry was made, pointing at this inode.
    Created(usize),
}

/// What `edit` or `rm` decided about its path.
#[derive(PartialEq, Eq, Structural, Clone, Copy, Debug)]
pub enum FileStep {
    Usage,
    /// The path names no file.
    NotAFile,
    /// The path names a file; the command goes on.
    Ready,
}

/// The entries of the directory `path` names from the root.
pub open spec fn dir_at_path(d: Seq<u8>, path: Seq<char>) -> Result<Map<Seq<char>, usize>, FsError> {
    match resolve(d, path, 0) {
        Ok(i) => dir_entries_at(d, i as int),
        Err(e) => Err(e),
    }
}

/// The characters of each string.
pub open spec fn strings_view(v: Seq<String>) -> Seq<Seq<char>> {
    v.map_values(|n: String| n@)
}

/// The names of a listing, in order.
pub open spec fn names_of_listing(s: Seq<(Seq<char>, usize)>) -> Seq<Seq<char>> {
    s.map_values(|e: (Seq<char>, usize)| e.0)
}

/// Whether `names` holds each name of `m` once and nothing else.
pub open spec fn lists_keys(names: Seq<Seq<char>>, m: Map<Seq<char>, usize>) -> bool {
    &&& forall|i: int, j: int| 0 <= i < j < names.len() ==> #[trigger] names[i] != #[trigger] names[j]
    &&& forall|i: int| 0 <= i < names.len() ==> #[trigger] m.contains_key(names[i])
    &&& forall|k: Seq<char>| #[trigger] m.contains_key(k) ==> exists|i: int| 0 <= i < names.len() && #[trigger] names[i] == k
}

proof fn lemma_listing_keys(s: Seq<(Seq<char>, usize)>, m: Map<Seq<char>, usize>)
    requires
        is_listing(s, m),
    ensures
        lists_keys(names_of_listing(s), m),
{
    let n = names_of_listing(s);
    assert forall|k: Seq<char>| #[trigger] m.contains_key(k) implies exists|i: int| 0 <= i < n.len() && #[trigger] n[i] == k by {
        let i = choose|i: int| 0 <= i < s.len() && #[trigger] s[i].0 == k;
        assert(n[i] == k);
    }
    assert forall|i: int, j: int| 0 <= i < j < n.len() implies #[trigger] n[i] != #[trigger] n[j] by {
        assert(s[i].0 != s[j].0);
    }
    assert forall|i: int| 0 <= i < n.len() implies #[trigger] m.contains_key(n[i]) by {
        assert(m.contains_key(s[i].0));
    }
}

/// The path `ls` lists: its argument, or the root.
pub open spec fn ls_path(args: Seq<String>) -> Seq<char> {
    if args.len() == 1 {
        args[0]@
    } else {
        seq!['/']
    }
}

/// The directory part and the entry name of a path, split at its last `/`;
/// a path without `/` is an entry of the root.
pub open spec fn split_path(p: Seq<char>) -> (Seq<char>, Seq<char>) {
    match slash_before(p, p.len() as int) {
        None => (seq!['/'], p),
        Some(k) => (p.take(k), p.skip(k + 1)),
    }
}

/// The shell's state: its accounts, the current one, and the file system.
pub struct Shell<D: Disk> {
    users: Vec<User>,
    curr_user_index: usize,
    file_system: FileSystem<D>,
}

impl<D: Disk> Shell<D> {
    /// The accounts, in the order they were added.
    pub closed spec fn accounts(&self) -> Seq<(Seq<char>, Seq<char>)> {
        accounts_of(self.users@)
    }

    /// The position of the current account.
    pub closed spec fn current(&self) -> int {
        self.curr_user_index as int
    }

    /// The bytes of the disk.
    pub closed spec fn disk(&self) -> Seq<u8> {
        self.file_system.disk()
    }

    /// Whether the disk moves every sector asked for.
    pub closed spec fn reliable(&self) -> bool {
        self.file_system.reliable()
    }

    /// Whether the disk is reliable, holds the whole layout, is well formed,
    /// its directories hold plain names that point only into the table, and
    /// its free inodes are empty: then no command fails on the device, and
    /// every command that succeeds keeps the disk so.
    pub open spec fn healthy(&self) -> bool {
        &&& self.reliable()
        &&& FS_SIZE <= self.disk().len()
        &&& fs_wf(self.disk())
        &&& entries_in_table(self.disk())
        &&& dir_names_plain(self.disk())
        &&& free_inodes_empty(self.disk())
    }

    /// A shell with the single account root (password root), logged in as
    /// it, on a freshly formatted file system on `disk`; `on_progress` is
    /// told how far the formatting got, in percent.
    pub fn new<F: Fn(u32)>(disk: D, on_progress: F) -> (r: Result<Shell<D>, FsError>)
        requires
            forall|p: u32| progress_step(p) ==> #[trigger] on_progress.requires((p,)),
        ensures
            r is Ok || is_io_error(r),
            disk.reliable() && BLOCKS_OFFSET <= disk.contents().len() ==> r is Ok,
            r matches Ok(sh) ==> {
                &&& sh.accounts() == seq![("root"@, "root"@)]
                &&& sh.current() == 0
                &&& sh.disk().len() == disk.contents().len()
                &&& sh.reliable() == disk.reliable()
                &&& disk.reliable() ==> formatted(sh.disk())
                &&& disk.reliable() && FS_SIZE <= disk.contents().len() ==> sh.healthy()
            },
    {
        let root_user = User::new("root", "root");
        let mut users: Vec<User> = Vec::new();
        users.push(root_user);
        let file_system = FileSystem::new(ReaderWriter::new(disk), on_progress)?;
        proof {
            assert(accounts_of(users@) =~= seq![("root"@, "root"@)]);
            if file_system.reliable() {
                formatted_entries_in_table(file_system.disk());
                formatted_is_tidy(file_system.disk());
            }
        }
        Ok(Shell { users: users, curr_user_index: 0, file_system: file_system })
    }

    /// Clears the screen.
    pub fn clear(&self, writer: &mut Writer)
        requires
            writer_wf(old(writer)@),
        ensures
            final(writer)@ == (WriterView {
                cells: Seq::new(2000, |i: int| ScreenChar { ascii_character: 0, color_code: old(writer)@.color }),
                column: 0,
                row: 0,
                ..old(writer)@
            }),
            writer_wf(final(writer)@),
    {
        writer.clear_screen();
    }

    /// The position of the current account.
    pub fn current_index(&self) -> (i: usize)
        ensures
            i == self.current(),
    {
        self.curr_user_index
    }

    /// The names of the accounts, in order.
    pub fn usernames(&self) -> (names: Vec<String>)
        ensures
            names@.map_values(|n: String| n@) == self.accounts().map_values(|a: (Seq<char>, Seq<char>)| a.0),
    {
        let mut names: Vec<String> = Vec::new();
        let mut k: usize = 0;
        while k < self.users.len()
            invariant
                k <= self.users@.len(),
                names@.len() == k,
                names@.map_values(|n: String| n@) == self.accounts().map_values(|a: (Seq<char>, Seq<char>)| a.0).take(k as int),
            decreases self.users@.len() - k,
        {
            let ghost prev = names@;
            names.push(self.users[k].username.clone());
            proof {
                let target = self.accounts().map_values(|a: (Seq<char>, Seq<char>)| a.0);
                assert(self.accounts()[k as int].0 == self.users@[k as int].username@);
                assert forall|j: int| 0 <= j < k implies #[trigger] names@[j]@ == target[j] by {
                    assert(names@[j] == prev[j]);
                    assert(prev.map_values(|n: String| n@)[j] == target.take(k as int)[j]);
                }
                assert(names@[k as int]@ == target[k as int]);
                assert(names@.map_values(|n: String| n@) =~= self.accounts().map_values(|a: (Seq<char>, Seq<char>)| a.0).take(k + 1));
            }
            k += 1;
        }
        proof {
            assert(self.accounts().map_values(|a: (Seq<char>, Seq<char>)| a.0).take(k as int) =~= self.accounts().map_values(|a: (Seq<char>, Seq<char>)| a.0));
        }
        names
    }

    /// The first account named `name`.
    fn user_index(&self, name: &String) -> (r: Option<usize>)
        ensures
            r matches Some(i) ==> find_user(self.accounts(), name@, 0) == Some(i as int),
            r is None ==> find_user(self.accounts(), name@, 0) is None,
    {
        let mut k: usize = 0;
        while k < self.users.len()
            invariant
                k <= self.users@.len(),
                find_user(self.accounts(), name@, 0) == find_user(self.accounts(), name@, k as int),
            decreases self.users@.len() - k,
        {
            if self.users[k].username == *name {
                return Some(k);
            }
            k += 1;
        }
        None
    }

    /// Adds the account `args[0]` with password `args[1]`, unless one of
    /// that name exists.
    pub fn add_user(&mut self, args: &Vec<String>) -> (r: AddUserOutcome)
        ensures
            final(self).disk() == old(self).disk(),
            final(self).current() == old(self).current(),
            final(self).reliable() == old(self).reliable(),
            args@.len() != 2 ==> r == AddUserOutcome::Usage && final(self).accounts() == old(self).accounts(),
            args@.len() == 2 ==> if find_user(old(self).accounts(), args@[0]@, 0) is Some {
                r == AddUserOutcome::AlreadyExists && final(self).accounts() == old(self).accounts()
            } else {
                r == AddUserOutcome::Created && final(self).accounts() == old(self).accounts().push(
                    (args@[0]@, args@[1]@),
                )
            },
    {
        if args.len() != 2 {
            return AddUserOutcome::Usage;
        }
        if self.user_index(&args[0]).is_some() {
            return AddUserOutcome::AlreadyExists;
        }
        let user = User::new(args[0].as_str(), args[1].as_str());
        self.users.push(user);
        proof {
            assert(accounts_of(self.users@) =~= accounts_of(old(self).users@).push((args@[0]@, args@[1]@)));
        }
        AddUserOutcome::Created
    }

    /// Decides what `deluser` does with `args` before it asks for root's
    /// password: root and the current user cannot be deleted.
    pub fn delete_user_step(&self, args: &Vec<String>) -> (r: DelUserStep)
        requires
            self.accounts().len() > 0,
            0 <= self.current() < self.accounts().len(),
        ensures
            args@.len() != 1 ==> r == DelUserStep::Usage,
            r matches DelUserStep::AskRootPassword(i) ==> 0 < i < self.accounts().len() && i
                != self.current() && self.accounts()[i as int].0 == args@[0]@,
            args@.len() == 1 ==> r == (if args@[0]@ == self.accounts()[0].0 {
                DelUserStep::CannotDeleteRoot
            } else if args@[0]@ == self.accounts()[self.current()].0 {
                DelUserStep::CannotDeleteYourself
            } else {
                match find_user(self.accounts(), args@[0]@, 0) {
                    None => DelUserStep::NoSuchUser,
                    Some(i) => DelUserStep::AskRootPassword(i as usize),
                }
            }),
    {
        if args.len() != 1 {
            return DelUserStep::Usage;
        }
        let username = &args[0];
        if *username == self.users[0].username {
            return DelUserStep::CannotDeleteRoot;
        }
        if *username == self.users[self.curr_user_index].username {
            return DelUserStep::CannotDeleteYourself;
        }
        proof {
            lemma_find_user(self.accounts(), args@[0]@, 0);
        }
        match self.user_index(username) {
            None => DelUserStep::NoSuchUser,
            Some(i) => DelUserStep::AskRootPassword(i),
        }
    }

    /// Deletes the account at `user_index` when `root_password` is root's;
    /// true when it did. The position of the current account is kept as it
    /// is.
    pub fn delete_user(&mut self, user_index: usize, root_password: &str) -> (deleted: bool)
        requires
            old(self).accounts().len() > 0,
            user_index < old(self).accounts().len(),
        ensures
            final(self).disk() == old(self).disk(),
            final(self).current() == old(self).current(),
            final(self).reliable() == old(self).reliable(),
            deleted == (root_password@ == old(self).accounts()[0].1),
            final(self).accounts() == if deleted {
                old(self).accounts().remove(user_index as int)
            } else {
                old(self).accounts()
            },
    {
        let given = root_password.to_owned();
        if given != self.users[0].password {
            return false;
        }
        self.users.remove(user_index);
        proof {
            assert(accounts_of(self.users@) =~= accounts_of(old(self).users@).remove(user_index as int));
        }
        true
    }

    /// Logs in as the first account with this name and password; false
    /// when there is none.
    pub fn login(&mut self, username: &str, password: &str) -> (logged: bool)
        ensures
            final(self).disk() == old(self).disk(),
            final(self).accounts() == old(self).accounts(),
            final(self).reliable() == old(self).reliable(),
            logged == find_login(old(self).accounts(), username@, password@, 0) is Some,
            final(self).current() == match find_login(old(self).accounts(), username@, password@, 0) {
                Some(i) => i,
                None => old(self).current(),
            },
    {
        let name = username.to_owned();
        let pass = password.to_owned();
        let mut k: usize = 0;
        while k < self.users.len()
            invariant
                k <= self.users@.len(),
                self.users@ == old(self).users@,
                self.curr_user_index == old(self).curr_user_index,
                self.file_system == old(self).file_system,
                name@ == username@,
                pass@ == password@,
                find_login(self.accounts(), username@, password@, 0) == find_login(
                    self.accounts(),
                    username@,
                    password@,
                    k as int,
                ),
            decreases self.users@.len() - k,
        {
            if self.users[k].username == name && self.users[k].password == pass {
                self.curr_user_index = k;
                return true;
            }
            k += 1;
        }
        false
    }

    /// The root-relative index `path` names, or the error looking it up
    /// gives; an index whose inode cannot be addressed is an overflow.
    fn lookup(&mut self, path: &str) -> (r: Result<usize, FsError>)
        ensures
            final(self).disk() == old(self).disk(),
            final(self).accounts() == old(self).accounts(),
            final(self).current() == old(self).current(),
            final(self).reliable() == old(self).reliable(),
            r matches Ok(i) ==> (old(self).reliable() ==> resolve(old(self).disk(), path@, 0) == Ok::<usize, FsError>(i)) && i * 96
                + 96 <= usize::MAX,
            r matches Err(e) ==> is_io_error(r) || !old(self).reliable() || resolve(old(self).disk(), path@, 0) == Err::<usize, FsError>(e),
            old(self).healthy() ==> !is_io_error(r),
            r matches Ok(i) ==> (old(self).healthy() ==> i < 512),
    {
        let i = self.file_system.get_inode_index_from_path(path, 0)?;
        proof {
            if self.healthy() {
                lemma_resolve_in_table(self.disk(), path@, 0);
            }
        }
        if i > (usize::MAX - 96) / 96 {
            return Err(FsError::Io(crate::reader_writer::IoError::Overflow));
        }
        proof {
            assert(i * 96 + 96 <= usize::MAX) by (nonlinear_arith)
                requires i <= (usize::MAX - 96) / 96;
        }
        Ok(i)
    }

    /// `ls [path]`: the names in the directory `path` names (the root when
    /// no path is given).
    pub fn ls(&mut self, args: &Vec<String>) -> (r: Result<LsOutcome, FsError>)
        ensures
            final(self).disk() == old(self).disk(),
            final(self).accounts() == old(self).accounts(),
            final(self).current() == old(self).current(),
            final(self).reliable() == old(self).reliable(),
            old(self).healthy() ==> !is_io_error(r),
            args@.len() > 1 ==> r matches Ok(LsOutcome::Usage),
            args@.len() <= 1 ==> !(r matches Ok(LsOutcome::Usage)),
            r matches Ok(LsOutcome::NotADir(x)) ==> x@ == ls_path(args@),
            r matches Ok(LsOutcome::NotADir(x)) ==> (old(self).reliable() ==> (type_at_path(
                old(self).disk(),
                ls_path(args@),
            ) matches Ok(t) && t != InodeType::Dir)),
            r matches Ok(LsOutcome::Listing(names)) ==> old(self).reliable() ==> (type_at_path(old(self).disk(), ls_path(args@))
                == Ok::<InodeType, FsError>(InodeType::Dir) && (dir_at_path(old(self).disk(), ls_path(args@))
                matches Ok(m) && lists_keys(strings_view(names@), m))),
            r matches Err(e) ==> is_io_error(r) || !old(self).reliable() || type_at_path(old(self).disk(), ls_path(args@)) == Err::<
                InodeType,
                FsError,
            >(e) || (type_at_path(old(self).disk(), ls_path(args@)) == Ok::<InodeType, FsError>(InodeType::Dir)
                && dir_at_path(old(self).disk(), ls_path(args@)) == Err::<Map<Seq<char>, usize>, FsError>(e)),
    {
        if args.len() > 1 {
            return Ok(LsOutcome::Usage);
        }
        let root = "/";
        proof {
            reveal_strlit("/");
            assert(root@ =~= seq!['/']);
        }
        let path: &str = if args.len() == 1 {
            args[0].as_str()
        } else {
            root
        };
        let ghost d0 = self.disk();
        assert(path@ == ls_path(args@));
        match self.file_system.get_type_by_path(path)? {
            InodeType::Dir => {},
            _ => return Ok(LsOutcome::NotADir(path.to_owned())),
        }
        let inode_index = self.lookup(path)?;
        let entries = self.file_system.get_entries_from_dir(inode_index)?;
        let list = entries.entries();
        let mut names: Vec<String> = Vec::new();
        let mut k: usize = 0;
        while k < list.len()
            invariant
                k <= list@.len(),
                names@.len() == k,
                forall|j: int| 0 <= j < k ==> #[trigger] names@[j]@ == list@[j].0@,
            decreases list@.len() - k,
        {
            names.push(list[k].0.clone());
            k += 1;
        }
        proof {
            let s = listing_view(list@);
            assert(strings_view(names@) =~= names_of_listing(s));
            assert(is_listing(s, entries@));
            if self.reliable() {
                assert(dir_at_path(d0, ls_path(args@)) == Ok::<Map<Seq<char>, usize>, FsError>(entries@));
                assert(type_at_path(d0, ls_path(args@)) == Ok::<InodeType, FsError>(InodeType::Dir));
                lemma_listing_keys(s, entries@);
            }
        }
        Ok(LsOutcome::Listing(names))
    }

    /// `cat file`: the content of the file `args[0]` names.
    pub fn cat(&mut self, args: &Vec<String>) -> (r: Result<CatOutcome, FsError>)
        ensures
            final(self).disk() == old(self).disk(),
            final(self).accounts() == old(self).accounts(),
            final(self).current() == old(self).current(),
            final(self).reliable() == old(self).reliable(),
            old(self).healthy() ==> !is_io_error(r),
            args@.len() != 1 ==> r matches Ok(CatOutcome::Usage),
            args@.len() == 1 ==> !(r matches Ok(CatOutcome::Usage)),
            args@.len() == 1 && old(self).reliable() ==> ({
                let p = args@[0]@;
                &&& r matches Ok(CatOutcome::NotAFile) ==> type_at_path(old(self).disk(), p) matches Ok(t) && t
                    != InodeType::File
                &&& r matches Ok(CatOutcome::Content(c)) ==> (type_at_path(old(self).disk(), p) == Ok::<InodeType, FsError>(
                    InodeType::File) && (resolve(old(self).disk(), p, 0) matches Ok(i) && (inode_at(
                    old(self).disk(), i as int) matches Some(v) && c@ == content_of(old(self).disk(), v)
                    && !spans_too_many_blocks(old(self).disk(), i as int))))
                &&& r matches Err(e) ==> is_io_error(r) || type_at_path(old(self).disk(), p) == Err::<InodeType, FsError>(e)
                    || (type_at_path(old(self).disk(), p) == Ok::<InodeType, FsError>(InodeType::File) && e
                    == FsError::TooManyBlocks && (resolve(old(self).disk(), p, 0) matches Ok(i)
                    && spans_too_many_blocks(old(self).disk(), i as int)))
                &&& !(r matches Ok(CatOutcome::Usage))
            }),
    {
        if args.len() != 1 {
            return Ok(CatOutcome::Usage);
        }
        match self.file_system.get_type_by_path(args[0].as_str())? {
            InodeType::File => {},
            _ => return Ok(CatOutcome::NotAFile),
        }
        let file_inode_index = self.lookup(args[0].as_str())?;
        let content = self.file_system.get_content_by_inode_index(file_inode_index)?;
        Ok(CatOutcome::Content(content))
    }

    /// `mkdir path` (`is_dir`) or `touch path`: adds the entry named by the
    /// last part of `args[0]` to the directory its first part names.
    #[verifier::rlimit(40)]
    pub fn make_entry(&mut self, args: &Vec<String>, is_dir: bool) -> (r: Result<MakeOutcome, FsError>)
        ensures
            final(self).disk().len() == old(self).disk().len(),
            final(self).accounts() == old(self).accounts(),
            final(self).current() == old(self).current(),
            final(self).reliable() == old(self).reliable(),
            old(self).healthy() ==> !is_io_error(r),
            old(self).healthy() && args@.len() == 1 && (r == Err::<MakeOutcome, FsError>(FsError::NoFreeBlock) || r
                == Err::<MakeOutcome, FsError>(FsError::TooManyBlocks)) ==> ({
                let (base, entry) = split_path(args@[0]@);
                let d = old(self).disk();
                exists|x: usize|
                    !#[trigger] listing_fits(
                        dir_at_path(d, base)->Ok_0.insert(entry, x),
                        d,
                        resolve(d, base, 0)->Ok_0 as int,
                    )
            }),
            old(self).healthy() && args@.len() == 1 && ({
                let (base, entry) = split_path(args@[0]@);
                let d = old(self).disk();
                &&& type_at_path(d, base) == Ok::<InodeType, FsError>(InodeType::Dir)
                &&& dir_at_path(d, base) matches Ok(m)
                &&& !m.contains_key(entry)
                &&& exists|j: int| 0 <= j < 512 && !#[trigger] inode_in_use(d, j)
                &&& forall|x: usize| #[trigger] listing_fits(m.insert(entry, x), d, resolve(d, base, 0)->Ok_0 as int)
            }) ==> r matches Ok(MakeOutcome::Created(_)),
            old(self).healthy() && r is Ok && (args@.len() == 1 ==> plain_name(split_path(args@[0]@).1))
                ==> final(self).healthy(),
            old(self).healthy() ==> r != Err::<MakeOutcome, FsError>(FsError::InvalidBlockState),
            args@.len() != 1 ==> (r matches Ok(MakeOutcome::Usage) && final(self).disk() == old(self).disk()),
            args@.len() == 1 ==> !(r matches Ok(MakeOutcome::Usage)),
            args@.len() == 1 && old(self).reliable() ==> ({
                let (base, entry) = split_path(args@[0]@);
                let d = old(self).disk();
                &&& r matches Ok(MakeOutcome::NotADir(x)) ==> (x@ == base && final(self).disk() == d && (type_at_path(d, base) matches Ok(t) && t
                    != InodeType::Dir))
                &&& r matches Ok(MakeOutcome::AlreadyExists) ==> (final(self).disk() == d && (dir_at_path(d, base) matches Ok(m) && m.contains_key(
                    entry)))
                &&& r matches Err(e) ==> is_io_error(r) || type_at_path(d, base) == Err::<InodeType, FsError>(e) || (
                type_at_path(d, base) == Ok::<InodeType, FsError>(InodeType::Dir) && (dir_at_path(d, base) == Err::<
                    Map<Seq<char>, usize>,
                    FsError,
                >(e) || (dir_at_path(d, base) matches Ok(m) && !m.contains_key(entry) && ((e == FsError::NoFreeInode
                    && forall|j: int| 0 <= j < 512 ==> #[trigger] inode_in_use(d, j)) || (e == FsError::CorruptInode
                    && exists|j: int| 0 <= j < 512 && #[trigger] inode_at(d, j) is None) || e == FsError::TooManyBlocks
                    || e == FsError::NoFreeBlock || e == FsError::InvalidBlockState))))
                &&& r matches Ok(MakeOutcome::Created(i)) ==> {
                    &&& type_at_path(d, base) == Ok::<InodeType, FsError>(InodeType::Dir)
                    &&& resolve(d, base, 0) matches Ok(b)
                    &&& dir_entries_at(d, b as int) matches Ok(m)
                    &&& !m.contains_key(entry)
                    &&& inode_at(d, i as int) matches Some(v)
                    &&& v.kind == InodeType::Free
                    &&& forall|j: int| 0 <= j < i ==> #[trigger] inode_in_use(d, j)
                    &&& inode_at(final(self).disk(), i as int) == Some(InodeView {
                        kind: if is_dir { InodeType::Dir } else { InodeType::File },
                        ..v
                    })
                    &&& (b < 512 && plain_keys(m) && plain_name(entry)) ==> dir_entries_at(final(self).disk(), b as int)
                        == Ok::<Map<Seq<char>, usize>, FsError>(m.insert(entry, i))
                    &&& (b < 512 && fs_wf(d)) ==> fs_wf(final(self).disk())
                    &&& (fs_wf(d) && entries_in_table(d) && plain_keys(m) && plain_name(entry) && simple_path(
                        args@[0]@,
                    )) ==> {
                        &&& resolve(final(self).disk(), args@[0]@, 0) == Ok::<usize, FsError>(i)
                        &&& type_at_path(final(self).disk(), args@[0]@) == Ok::<InodeType, FsError>(
                            if is_dir {
                                InodeType::Dir
                            } else {
                                InodeType::File
                            },
                        )
                    }
                }
                &&& !(r matches Ok(MakeOutcome::Usage))
            }),
    {
        if args.len() != 1 {
            return Ok(MakeOutcome::Usage);
        }
        let (base_dir, entry) = self.file_system.path_to_base_dir_and_entry(args[0].as_str());
        proof {
            lemma_resolve_errors(self.disk(), base_dir@, 0);
            if self.healthy() {
                lemma_resolve_fits(self.disk(), base_dir@, 0);
            }
        }
        match self.file_system.get_type_by_path(base_dir)? {
            InodeType::Dir => {},
            _ => return Ok(MakeOutcome::NotADir(base_dir.to_owned())),
        }
        let base_dir_inode_index = self.lookup(base_dir)?;
        let ghost d = self.disk();
        let created = self.file_system.create_dir_entry(entry, is_dir, base_dir_inode_index);
        let outcome = match created {
            Ok(o) => o,
            Err(e) => {
                proof {
                    if old(self).healthy() && (e == FsError::NoFreeBlock || e == FsError::TooManyBlocks) {
                        let b = base_dir_inode_index as int;
                        assert(dir_at_path(d, base_dir@) == dir_entries_at(d, b));
                        let x = choose|x: usize|
                            !#[trigger] listing_fits(dir_entries_at(d, b)->Ok_0.insert(entry@, x), d, b);
                        assert(!listing_fits(dir_at_path(d, base_dir@)->Ok_0.insert(entry@, x), d, resolve(d, base_dir@, 0)->Ok_0 as int));
                        assert(split_path(args@[0]@).0 == base_dir@);
                        assert(split_path(args@[0]@).1 == entry@);
                    }
                }
                return Err(e);
            },
        };
        match outcome {
            CreateOutcome::AlreadyExists => Ok(MakeOutcome::AlreadyExists),
            CreateOutcome::Created(i) => {
                proof {
                    let p = args@[0]@;
                    if self.reliable() && fs_wf(d) && entries_in_table(d) && plain_keys(dir_entries_at(d, base_dir_inode_index as int)->Ok_0)
                        && plain_name(entry@) && simple_path(p) {
                        self.lemma_created_path_resolves(d, p, base_dir@, entry@, base_dir_inode_index, i, is_dir);
                    }
                    if old(self).healthy() && plain_name(entry@) {
                        self.lemma_created_keeps_health(d, entry@, base_dir_inode_index as int, i as int, is_dir);
                    }
                }
                Ok(MakeOutcome::Created(i))
            },
        }
    }

    /// Creating an entry with a plain name on a healthy disk keeps it
    /// healthy.
    proof fn lemma_created_keeps_health(&self, d: Seq<u8>, entry: Seq<char>, b: int, i: int, is_dir: bool)
        requires
            self.reliable(),
            self.disk().len() == d.len(),
            FS_SIZE <= d.len(),
            fs_wf(d),
            entries_in_table(d),
            dir_names_plain(d),
            free_inodes_empty(d),
            plain_name(entry),
            0 <= b < 512,
            dir_entries_at(d, b) matches Ok(m) && !m.contains_key(entry) && {
                &&& 0 <= i < 512
                &&& inode_at(d, i) matches Some(v)
                &&& v.kind == InodeType::Free
                &&& inode_at(self.disk(), i) == Some(
                    InodeView {
                        kind: if is_dir {
                            InodeType::Dir
                        } else {
                            InodeType::File
                        },
                        ..v
                    },
                )
                &&& plain_keys(m) ==> dir_entries_at(self.disk(), b) == Ok::<Map<Seq<char>, usize>, FsError>(
                    m.insert(entry, i as usize),
                )
                &&& fs_wf(self.disk())
                &&& forall|j: int|
                    0 <= j < 512 && j != b && j != i ==> #[trigger] inode_at(self.disk(), j) == inode_at(d, j)
                        && content_of(self.disk(), inode_at(d, j)->0) == content_of(d, inode_at(d, j)->0)
            },
        ensures
            self.healthy(),
    {
        let d2 = self.disk();
        let m = dir_entries_at(d, b)->Ok_0;
        let v = inode_at(d, i)->0;
        assert(plain_entries(dir_entries_at(d, b)));
        assert(points_into_table(dir_entries_at(d, b)));
        assert(plain_keys(m));
        assert(v.length == 0);
        assert(dir_entries_at(d2, b) == Ok::<Map<Seq<char>, usize>, FsError>(m.insert(entry, i as usize)));
        assert forall|j: int| 0 <= j < 512 && j != b && j != i implies #[trigger] dir_entries_at(d2, j) == dir_entries_at(
            d,
            j,
        ) by {
            assert(inode_at(d2, j) == inode_at(d, j));
        }
        let w = inode_at(d2, i)->0;
        assert(content_of(d2, w) =~= Seq::<u8>::empty());
        assert(decode_dir(Seq::<u8>::empty()) == Some(Map::<Seq<char>, usize>::empty()));
        assert forall|j: int| 0 <= j < 512 implies points_into_table(#[trigger] dir_entries_at(d2, j)) by {
            if j != b && j != i {
                assert(points_into_table(dir_entries_at(d, j)));
            } else if j == b {
                assert forall|k: Seq<char>| #[trigger] m.insert(entry, i as usize).contains_key(k) implies m.insert(
                    entry,
                    i as usize,
                )[k] < 512 by {
                    if k != entry {
                        assert(m.contains_key(k));
                    }
                }
            }
        }
        assert forall|j: int| 0 <= j < 512 implies plain_entries(#[trigger] dir_entries_at(d2, j)) by {
            if j != b && j != i {
                assert(plain_entries(dir_entries_at(d, j)));
            } else if j == b {
                assert forall|k: Seq<char>| #[trigger] m.insert(entry, i as usize).contains_key(k) implies plain_name(k) by {
                    if k != entry {
                        assert(m.contains_key(k));
                    }
                }
            }
        }
        assert forall|j: int| 0 <= j < 512 implies (#[trigger] inode_at(d2, j) matches Some(u) ==> (u.kind
            == InodeType::Free ==> u.length == 0)) by {
            if j != b && j != i {
                assert(inode_at(d2, j) == inode_at(d, j));
            }
        }
    }

    /// The path of an entry just removed names nothing.
    proof fn lemma_removed_path_unknown(
        &self,
        d: Seq<u8>,
        p: Seq<char>,
        base: Seq<char>,
        entry: Seq<char>,
        b: usize,
        m: Map<Seq<char>, usize>,
    )
        requires
            entries_in_table(d),
            simple_path(p),
            match slash_before(p, p.len() as int) {
                None => base == seq!['/'] && entry == p,
                Some(k) => base == p.take(k) && entry == p.skip(k + 1),
            },
            type_at_path(d, p) == Ok::<InodeType, FsError>(InodeType::File),
            resolve(d, base, 0) == Ok::<usize, FsError>(b),
            b < 512,
            dir_entries_at(d, b as int) == Ok::<Map<Seq<char>, usize>, FsError>(m),
            dir_entries_at(self.disk(), b as int) == Ok::<Map<Seq<char>, usize>, FsError>(m.remove(entry)),
            forall|j: int|
                0 <= j < 512 && j != b && (#[trigger] dir_entries_at(d, j)) is Ok ==> dir_entries_at(self.disk(), j)
                    == dir_entries_at(d, j),
        ensures
            resolve(self.disk(), p, 0) == Err::<usize, FsError>(FsError::UnknownEntry),
            type_at_path(self.disk(), p) == Ok::<InodeType, FsError>(InodeType::Free),
    {
        let d2 = self.disk();
        lemma_slash_before_range(p, p.len() as int);
        match slash_before(p, p.len() as int) {
            None => {
                assert(b == 0);
                missing_entry_is_unknown(d2, b as int, m.remove(entry), entry);
            },
            Some(k) => {
                assert(k > 0);
                assert(k < p.len() - 1);
                assert(simple_path(base)) by {
                    assert(base[0] == p[0]);
                    assert(base[base.len() - 1] == p[k - 1]);
                    assert(p[k] == '/');
                    assert forall|t: int| 0 <= t < base.len() - 1 && #[trigger] base[t] == '/' implies base[t + 1]
                        != '/' by {
                        assert(base[t] == p[t]);
                        assert(base[t + 1] == p[t + 1]);
                    }
                }
                assert forall|t: int| 0 <= t < entry.len() implies entry[t] != '/' by {
                    assert(entry[t] == p[k + 1 + t]);
                }
                assert(base + seq!['/'] + entry =~= p);
                lemma_resolve_join(d, base, entry, 0);
                if m.contains_key(entry) {
                    entry_resolves_in_its_directory(d, b as int, m, entry);
                }
                lemma_resolve_after_remove(d, d2, base, 0, b as int, m, entry, b);
                lemma_resolve_join(d2, base, entry, 0);
                missing_entry_is_unknown(d2, b as int, m.remove(entry), entry);
            },
        }
    }

    /// The path of an entry just created names it.
    proof fn lemma_created_path_resolves(
        &self,
        d: Seq<u8>,
        p: Seq<char>,
        base: Seq<char>,
        entry: Seq<char>,
        b: usize,
        i: usize,
        is_dir: bool,
    )
        requires
            fs_wf(d),
            entries_in_table(d),
            simple_path(p),
            match slash_before(p, p.len() as int) {
                None => base == seq!['/'] && entry == p,
                Some(k) => base == p.take(k) && entry == p.skip(k + 1),
            },
            resolve(d, base, 0) == Ok::<usize, FsError>(b),
            dir_entries_at(d, b as int) matches Ok(m) && !m.contains_key(entry) && plain_keys(m) && plain_name(entry)
                && {
                &&& i < 512
                &&& inode_at(d, i as int) matches Some(v)
                &&& v.kind == InodeType::Free
                &&& inode_at(self.disk(), i as int) == Some(
                    InodeView {
                        kind: if is_dir {
                            InodeType::Dir
                        } else {
                            InodeType::File
                        },
                        ..v
                    },
                )
                &&& (b < 512 && plain_keys(m) && plain_name(entry)) ==> dir_entries_at(self.disk(), b as int)
                    == Ok::<Map<Seq<char>, usize>, FsError>(m.insert(entry, i))
                &&& (b < 512 && fs_wf(d)) ==> forall|j: int|
                    0 <= j < 512 && j != b && j != i ==> #[trigger] inode_at(self.disk(), j) == inode_at(d, j)
                        && content_of(self.disk(), inode_at(d, j)->0) == content_of(d, inode_at(d, j)->0)
            },
        ensures
            resolve(self.disk(), p, 0) == Ok::<usize, FsError>(i),
            type_at_path(self.disk(), p) == Ok::<InodeType, FsError>(
                if is_dir {
                    InodeType::Dir
                } else {
                    InodeType::File
                },
            ),
    {
        let d2 = self.disk();
        let m = dir_entries_at(d, b as int)->Ok_0;
        lemma_resolve_in_table(d, base, 0);
        assert(b < 512);
        assert forall|j: int|
            0 <= j < 512 && j != b && (#[trigger] dir_entries_at(d, j)) is Ok implies dir_entries_at(d2, j)
                == dir_entries_at(d, j) by {
            if j != i {
                assert(inode_at(d2, j) == inode_at(d, j));
            }
        }
        lemma_slash_before_range(p, p.len() as int);
        match slash_before(p, p.len() as int) {
            None => {
                assert(b == 0);
                entry_resolves_in_its_directory(d2, b as int, m.insert(entry, i), entry);
            },
            Some(k) => {
                assert(k > 0);
                assert(k < p.len() - 1);
                assert(simple_path(base)) by {
                    assert(base[0] == p[0]);
                    assert(base[base.len() - 1] == p[k - 1]);
                    assert(p[k] == '/');
                    assert forall|t: int| 0 <= t < base.len() - 1 && #[trigger] base[t] == '/' implies base[t + 1]
                        != '/' by {
                        assert(base[t] == p[t]);
                        assert(base[t + 1] == p[t + 1]);
                    }
                }
                assert forall|t: int| 0 <= t < entry.len() implies entry[t] != '/' by {
                    assert(entry[t] == p[k + 1 + t]);
                }
                lemma_resolve_after_insert(d, d2, base, 0, b as int, m, entry, i);
                lemma_resolve_join(d2, base, entry, 0);
                assert(base + seq!['/'] + entry =~= p);
                entry_resolves_in_its_directory(d2, b as int, m.insert(entry, i), entry);
            },
        }
    }

    /// The check `edit file` makes before reading the new content: the
    /// path must name a file.
    pub fn edit_step(&mut self, args: &Vec<String>) -> (r: Result<FileStep, FsError>)
        ensures
            final(self).disk() == old(self).disk(),
            final(self).accounts() == old(self).accounts(),
            final(self).current() == old(self).current(),
            final(self).reliable() == old(self).reliable(),
            old(self).healthy() ==> !is_io_error(r),
            args@.len() != 1 ==> r == Ok::<FileStep, FsError>(FileStep::Usage),
            args@.len() == 1 && old(self).reliable() ==> ({
                let t = type_at_path(old(self).disk(), args@[0]@);
                &&& r == Ok::<FileStep, FsError>(FileStep::Ready) ==> t == Ok::<InodeType, FsError>(InodeType::File)
                &&& t == Ok::<InodeType, FsError>(InodeType::File) ==> r == Ok::<FileStep, FsError>(FileStep::Ready)
                    || is_io_error(r)
                &&& r == Ok::<FileStep, FsError>(FileStep::NotAFile) ==> (t matches Ok(k) && k != InodeType::File)
                &&& r matches Err(e) ==> is_io_error(r) || t == Err::<InodeType, FsError>(e)
                &&& r != Ok::<FileStep, FsError>(FileStep::Usage)
            }),
    {
        if args.len() != 1 {
            return Ok(FileStep::Usage);
        }
        match self.file_system.get_type_by_path(args[0].as_str())? {
            InodeType::File => Ok(FileStep::Ready),
            _ => Ok(FileStep::NotAFile),
        }
    }

    /// What `edit file` does with the line typed: it becomes the content of
    /// the inode `path` names.
    pub fn edit_write(&mut self, path: &str, content: Vec<u8>) -> (r: Result<(), FsError>)
        requires
            content@.len() <= 5120,
        ensures
            final(self).disk().len() == old(self).disk().len(),
            final(self).accounts() == old(self).accounts(),
            final(self).current() == old(self).current(),
            final(self).reliable() == old(self).reliable(),
            old(self).healthy() ==> !is_io_error(r),
            old(self).healthy() ==> r != Err::<(), FsError>(FsError::TooManyBlocks),
            old(self).healthy() && r == Err::<(), FsError>(FsError::NoFreeBlock) ==> free_for_inode(
                old(self).disk(),
                resolve(old(self).disk(), path@, 0)->Ok_0 as int,
            ) < block_count(content@.len() as int),
            old(self).healthy() ==> r != Err::<(), FsError>(FsError::InvalidBlockState),
            old(self).healthy() && r is Ok && type_at_path(old(self).disk(), path@) == Ok::<InodeType, FsError>(
                InodeType::File,
            ) ==> final(self).healthy(),
            old(self).healthy() && type_at_path(old(self).disk(), path@) == Ok::<InodeType, FsError>(InodeType::File)
                && free_for_inode(old(self).disk(), resolve(old(self).disk(), path@, 0)->Ok_0 as int) >= block_count(
                content@.len() as int,
            ) ==> r is Ok,
            r is Ok && old(self).reliable() ==> {
                &&& resolve(old(self).disk(), path@, 0) matches Ok(i)
                &&& inode_at(old(self).disk(), i as int) matches Some(v)
                &&& inode_at(final(self).disk(), i as int) matches Some(w)
                &&& w.kind == v.kind
                &&& w.length == content@.len()
                &&& i < 512 ==> content_of(final(self).disk(), w) == content@
                &&& (i < 512 && fs_wf(old(self).disk())) ==> fs_wf(final(self).disk())
                &&& (fs_wf(old(self).disk()) && entries_in_table(old(self).disk()) && v.kind != InodeType::Dir)
                    ==> resolve(final(self).disk(), path@, 0) == Ok::<usize, FsError>(i)
                &&& (i < 512 && fs_wf(old(self).disk())) ==> forall|j: int|
                    0 <= j < 512 && j != i ==> #[trigger] inode_at(final(self).disk(), j) == inode_at(
                        old(self).disk(),
                        j,
                    ) && content_of(final(self).disk(), inode_at(old(self).disk(), j)->0) == content_of(
                        old(self).disk(),
                        inode_at(old(self).disk(), j)->0,
                    )
                &&& (i < 512 && fs_wf(old(self).disk()) && v.kind != InodeType::Dir) ==> forall|j: int|
                    0 <= j < 512 ==> #[trigger] dir_entries_at(final(self).disk(), j) == dir_entries_at(
                        old(self).disk(),
                        j,
                    )
            },
            r matches Err(e) ==> is_io_error(r) || !old(self).reliable() || resolve(old(self).disk(), path@, 0) == Err::<usize, FsError>(e) || (
            resolve(old(self).disk(), path@, 0) matches Ok(i) && ((e == FsError::CorruptInode && inode_at(
                old(self).disk(),
                i as int,
            ) is None) || (e == FsError::TooManyBlocks && spans_too_many_blocks(old(self).disk(), i as int)) || e
                == FsError::NoFreeBlock || e == FsError::InvalidBlockState)),
    {
        proof {
            lemma_resolve_errors(self.disk(), path@, 0);
            if self.healthy() {
                lemma_resolve_fits(self.disk(), path@, 0);
            }
        }
        let file_inode_index = self.lookup(path)?;
        let ghost d = self.disk();
        let r = self.file_system.set_content_by_inode_index(file_inode_index, content);
        proof {
            let d2 = self.disk();
            if r is Ok && self.reliable() && fs_wf(d) && file_inode_index < 512 && inode_at(d, file_inode_index as int)->0.kind
                != InodeType::Dir {
                assert forall|j: int| 0 <= j < 512 implies #[trigger] dir_entries_at(d2, j) == dir_entries_at(d, j) by {
                    if j != file_inode_index {
                        assert(inode_at(d2, j) == inode_at(d, j));
                    }
                }
            }
            if r is Ok && self.reliable() && fs_wf(d) && entries_in_table(d) && inode_at(d, file_inode_index as int)->0.kind
                != InodeType::Dir {
                lemma_resolve_in_table(d, path@, 0);
                assert forall|j: int|
                    0 <= j < 512 && (#[trigger] dir_entries_at(d, j)) is Ok implies dir_entries_at(d2, j)
                        == dir_entries_at(d, j) by {
                    if j != file_inode_index {
                        assert(inode_at(d2, j) == inode_at(d, j));
                    }
                }
                lemma_resolve_frame(d, d2, path@, 0);
            }
            if r is Ok && old(self).healthy() && type_at_path(d, path@) == Ok::<InodeType, FsError>(InodeType::File) {
                let i = file_inode_index as int;
                lemma_resolve_in_table(d, path@, 0);
                assert(i < 512);
                assert forall|j: int| 0 <= j < 512 && j != i implies #[trigger] dir_entries_at(d2, j) == dir_entries_at(d, j) by {
                    assert(inode_at(d2, j) == inode_at(d, j));
                }
                assert forall|j: int| 0 <= j < 512 implies points_into_table(#[trigger] dir_entries_at(d2, j)) by {
                    if j != i {
                        assert(dir_entries_at(d2, j) == dir_entries_at(d, j));
                        assert(points_into_table(dir_entries_at(d, j)));
                    }
                }
                assert forall|j: int| 0 <= j < 512 implies plain_entries(#[trigger] dir_entries_at(d2, j)) by {
                    if j != i {
                        assert(dir_entries_at(d2, j) == dir_entries_at(d, j));
                        assert(plain_entries(dir_entries_at(d, j)));
                    }
                }
                assert forall|j: int| 0 <= j < 512 implies (#[trigger] inode_at(d2, j) matches Some(v) ==> (v.kind
                    == InodeType::Free ==> v.length == 0)) by {
                    if j != i {
                        assert(inode_at(d2, j) == inode_at(d, j));
                    }
                }
            }
        }
        r
    }

    /// `rm file`: removes the entry of the file `args[0]` names from its
    /// directory; the file's inode and blocks stay as they are.
    #[verifier::rlimit(40)]
    pub fn rm(&mut self, args: &Vec<String>) -> (r: Result<FileStep, FsError>)
        ensures
            final(self).disk().len() == old(self).disk().len(),
            final(self).accounts() == old(self).accounts(),
            final(self).current() == old(self).current(),
            final(self).reliable() == old(self).reliable(),
            old(self).healthy() ==> !is_io_error(r),
            old(self).healthy() ==> r != Err::<FileStep, FsError>(FsError::NoFreeBlock) && r != Err::<
                FileStep,
                FsError,
            >(FsError::TooManyBlocks),
            old(self).healthy() && args@.len() == 1 && type_at_path(old(self).disk(), args@[0]@) == Ok::<
                InodeType,
                FsError,
            >(InodeType::File) && dir_at_path(old(self).disk(), split_path(args@[0]@).0) is Ok ==> r == Ok::<
                FileStep,
                FsError,
            >(FileStep::Ready),
            old(self).healthy() && r is Ok ==> final(self).healthy(),
            old(self).healthy() ==> r != Err::<FileStep, FsError>(FsError::InvalidBlockState),
            args@.len() != 1 ==> r == Ok::<FileStep, FsError>(FileStep::Usage) && final(self).disk() == old(self).disk(),
            args@.len() == 1 && old(self).reliable() ==> ({
                let (base, entry) = split_path(args@[0]@);
                let d = old(self).disk();
                &&& r == Ok::<FileStep, FsError>(FileStep::NotAFile) ==> (final(self).disk() == d && (type_at_path(d, args@[0]@) matches Ok(k) && k
                    != InodeType::File))
                &&& r == Ok::<FileStep, FsError>(FileStep::Ready) ==> {
                    &&& type_at_path(d, args@[0]@) == Ok::<InodeType, FsError>(InodeType::File)
                    &&& resolve(d, base, 0) matches Ok(b)
                    &&& dir_entries_at(d, b as int) matches Ok(m)
                    &&& (b < 512 && plain_keys(m.remove(entry))) ==> dir_entries_at(final(self).disk(), b as int)
                        == Ok::<Map<Seq<char>, usize>, FsError>(m.remove(entry))
                    &&& (b < 512 && fs_wf(d)) ==> forall|j: int|
                        0 <= j < 512 && j != b ==> #[trigger] inode_at(final(self).disk(), j) == inode_at(d, j)
                            && content_of(final(self).disk(), inode_at(d, j)->0) == content_of(d, inode_at(d, j)->0)
                    &&& (b < 512 && fs_wf(d)) ==> fs_wf(final(self).disk())
                    &&& (old(self).healthy() && simple_path(args@[0]@)) ==> {
                        &&& resolve(final(self).disk(), args@[0]@, 0) == Err::<usize, FsError>(FsError::UnknownEntry)
                        &&& type_at_path(final(self).disk(), args@[0]@) == Ok::<InodeType, FsError>(InodeType::Free)
                    }
                }
                &&& r matches Err(e) ==> is_io_error(r) || type_at_path(d, args@[0]@) == Err::<InodeType, FsError>(e)
                    || (type_at_path(d, args@[0]@) == Ok::<InodeType, FsError>(InodeType::File) && (dir_at_path(d, base)
                    == Err::<Map<Seq<char>, usize>, FsError>(e) || (dir_at_path(d, base) is Ok && (e
                    == FsError::TooManyBlocks || e == FsError::NoFreeBlock || e == FsError::InvalidBlockState))))
                &&& r != Ok::<FileStep, FsError>(FileStep::Usage)
            }),
    {
        if args.len() != 1 {
            return Ok(FileStep::Usage);
        }
        proof {
            lemma_resolve_errors(self.disk(), args@[0]@, 0);
            if self.healthy() {
                lemma_resolve_fits(self.disk(), args@[0]@, 0);
            }
        }
        match self.file_system.get_type_by_path(args[0].as_str())? {
            InodeType::File => {},
            _ => return Ok(FileStep::NotAFile),
        }
        let (base_dir, entry) = self.file_system.path_to_base_dir_and_entry(args[0].as_str());
        proof {
            lemma_resolve_errors(self.disk(), base_dir@, 0);
            if self.healthy() {
                lemma_resolve_fits(self.disk(), base_dir@, 0);
            }
        }
        let base_dir_inode_index = self.lookup(base_dir)?;
        let ghost d = self.disk();
        let mut entries = self.file_system.get_entries_from_dir(base_dir_inode_index)?;
        let ghost m = entries@;
        proof {
            if old(self).healthy() {
                let b = base_dir_inode_index as int;
                assert(plain_entries(dir_entries_at(d, b)));
                lemma_removal_fits(d, b, m, entry@);
            }
        }
        entries.remove(entry);
        self.file_system.set_files_to_dir(&entries, base_dir_inode_index)?;
        proof {
            if old(self).healthy() {
                let d2 = self.disk();
                let b = base_dir_inode_index as int;
                assert(b < 512);
                assert(plain_entries(dir_entries_at(d, b)));
                assert(points_into_table(dir_entries_at(d, b)));
                assert(dir_entries_at(d, b) == Ok::<Map<Seq<char>, usize>, FsError>(m));
                assert(forall|k: Seq<char>| #[trigger] m.contains_key(k) ==> plain_name(k));
                assert(forall|k: Seq<char>| #[trigger] m.contains_key(k) ==> m[k] < 512);
                assert forall|k: Seq<char>| #[trigger] m.remove(entry@).contains_key(k) implies plain_name(k) by {
                    assert(m.contains_key(k));
                }
                assert(dir_entries_at(d2, b) == Ok::<Map<Seq<char>, usize>, FsError>(m.remove(entry@)));
                assert forall|k: Seq<char>| #[trigger] m.remove(entry@).contains_key(k) implies m.remove(entry@)[k]
                    < 512 by {
                    assert(m.contains_key(k));
                }
                assert forall|j: int| 0 <= j < 512 && j != b implies #[trigger] dir_entries_at(d2, j) == dir_entries_at(d, j) by {
                    assert(inode_at(d2, j) == inode_at(d, j));
                }
                assert forall|j: int| 0 <= j < 512 implies points_into_table(#[trigger] dir_entries_at(d2, j)) by {
                    if j != b {
                        assert(dir_entries_at(d2, j) == dir_entries_at(d, j));
                        assert(points_into_table(dir_entries_at(d, j)));
                    }
                }
                assert forall|j: int| 0 <= j < 512 implies plain_entries(#[trigger] dir_entries_at(d2, j)) by {
                    if j != b {
                        assert(dir_entries_at(d2, j) == dir_entries_at(d, j));
                        assert(plain_entries(dir_entries_at(d, j)));
                    }
                }
                assert forall|j: int| 0 <= j < 512 implies (#[trigger] inode_at(d2, j) matches Some(v) ==> (v.kind
                    == InodeType::Free ==> v.length == 0)) by {
                    if j != b {
                        assert(inode_at(d2, j) == inode_at(d, j));
                    }
                }
                if simple_path(args@[0]@) {
                    assert forall|j: int|
                        0 <= j < 512 && j != b && (#[trigger] dir_entries_at(d, j)) is Ok implies dir_entries_at(d2, j)
                            == dir_entries_at(d, j) by {
                        assert(dir_entries_at(d2, j) == dir_entries_at(d, j));
                    }
                    self.lemma_removed_path_unknown(d, args@[0]@, base_dir@, entry@, base_dir_inode_index, m);
                }
            }
        }
        Ok(FileStep::Ready)
    }
}

} // verus!
