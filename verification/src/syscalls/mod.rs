//! The system call interface and the shell's commands: which call a number
//! asks for, the prompt, number formatting, and what a command line does to
//! the file system and prints.
use vstd::prelude::*;
use vstd::string::*;
use vstd::utf8::*;
use crate::fs::{FileSystem, FsView, pwd_text, mkdir_outcome, touch_outcome, cat_outcome, mv_outcome, ls_outcome, cd_outcome};

verus! {

/// The system calls, by number.
#[derive(Clone, Copy, PartialEq, Eq, Structural)]
pub enum Syscall {
    /// 0: print a text.
    Write,
    /// 1: wait for a key.
    ReadKey,
    /// 2: clear the screen.
    ClearScreen,
    /// 3: take a key if one is there.
    PollKey,
    /// 5: run a command line.
    Execute,
    /// 6: print the prompt.
    Prompt,
    /// Any other number.
    Unknown,
}

/// The system call that `num` asks for.
pub fn decode_syscall(num: u64) -> (r: Syscall)
    ensures
        r == match num {
            0 => Syscall::Write,
            1 => Syscall::ReadKey,
            2 => Syscall::ClearScreen,
            3 => Syscall::PollKey,
            5 => Syscall::Execute,
            6 => Syscall::Prompt,
            _ => Syscall::Unknown,
        },
{
    if num == 0 {
        Syscall::Write
    } else if num == 1 {
        Syscall::ReadKey
    } else if num == 2 {
        Syscall::ClearScreen
    } else if num == 3 {
        Syscall::PollKey
    } else if num == 5 {
        Syscall::Execute
    } else if num == 6 {
        Syscall::Prompt
    } else {
        Syscall::Unknown
    }
}

/// The ASCII digit for `d` in base 16: `0`-`9`, then `A`-`F`.
pub open spec fn digit_char(d: nat) -> u8 {
    if d < 10 {
        (48 + d) as u8
    } else {
        (65 + d - 10) as u8
    }
}

/// The digits of `v` in `base`, most significant first, with no leading
/// zero; `0` for zero.
pub open spec fn digits(v: nat, base: nat) -> Seq<u8>
    recommends
        2 <= base <= 16,
    decreases v,
{
    if base < 2 || v < base {
        seq![digit_char(v)]
    } else {
        proof {
            vstd::arithmetic::div_mod::lemma_div_decreases(v as int, base as int);
        }
        digits(v / base, base).push(digit_char(v % base))
    }
}

/// The number that the digits `s` in `base` write.
pub open spec fn digits_value(s: Seq<u8>, base: nat) -> int
    decreases s.len(),
{
    if s.len() == 0 {
        0
    } else {
        digits_value(s.drop_last(), base) * base + digit_of(s.last())
    }
}

/// The value of a digit character.
pub open spec fn digit_of(c: u8) -> int {
    if 48 <= c <= 57 {
        c - 48
    } else {
        c - 65 + 10
    }
}

/// The digits of `val` in `base` (2 to 16), most significant first.
fn digits_of(val: u64, base: u64) -> (r: Vec<u8>)
    requires
        2 <= base <= 16,
    ensures
        r@ == digits(val as nat, base as nat),
{
    let mut v = val;
    let mut acc: Vec<u8> = Vec::new();
    if v == 0 {
        acc.push(48);
        return acc;
    }
    while v > 0
        invariant
            2 <= base <= 16,
            v > 0 ==> digits(val as nat, base as nat) == digits(v as nat, base as nat) + acc@,
            v == 0 ==> digits(val as nat, base as nat) == acc@,
        decreases v,
    {
        let d = v % base;
        let c: u8 = if d < 10 {
            48 + d as u8
        } else {
            65 + (d - 10) as u8
        };
        assert(c == digit_char(d as nat));
        let ghost old_acc = acc@;
        acc.insert(0, c);
        proof {
            vstd::arithmetic::div_mod::lemma_div_decreases(v as int, base as int);
            if v < base {
                vstd::arithmetic::div_mod::lemma_basic_div(v as int, base as int);
                vstd::arithmetic::div_mod::lemma_small_mod(v as nat, base as nat);
            }
            if v >= base {
                assert(digits(v as nat, base as nat) == digits((v / base) as nat, base as nat).push(c));
                assert(digits((v / base) as nat, base as nat).push(c) + old_acc =~= digits(
                    (v / base) as nat,
                    base as nat,
                ) + acc@);
            } else {
                assert(digits(v as nat, base as nat) == seq![c]);
                assert(seq![c] + old_acc =~= acc@);
            }
        }
        let ghost old_v = v;
        v = v / base;
        proof {
            if old_v < base {
                assert(v == 0);
            } else {
                vstd::arithmetic::div_mod::lemma_div_non_zero(old_v as int, base as int);
                assert(v > 0);
            }
        }
    }
    acc
}

/// The digits of `val` in base 16, as the shell prints them.
pub fn hex_digits(val: u64) -> (r: Vec<u8>)
    ensures
        r@ == digits(val as nat, 16),
{
    digits_of(val, 16)
}

/// The digits of `val` in base 10, as the shell prints them.
pub fn dec_digits(val: u64) -> (r: Vec<u8>)
    ensures
        r@ == digits(val as nat, 10),
{
    digits_of(val, 10)
}

/// Law: the digits of a number write that number back.
pub proof fn law_digits_value(v: nat, base: nat)
    requires
        2 <= base <= 16,
    ensures
        digits_value(digits(v, base), base) == v,
        digits(v, base).len() >= 1,
        v > 0 ==> digits(v, base)[0] != 48,
    decreases v,
{
    let d = v % base;
    vstd::arithmetic::div_mod::lemma_mod_bound(v as int, base as int);
    assert(digit_of(digit_char(d)) == d);
    if v < base {
        vstd::arithmetic::div_mod::lemma_small_mod(v, base);
        assert(digits(v, base).drop_last() =~= Seq::<u8>::empty());
        assert(digit_of(digit_char(v)) == v);
        assert(digits(v, base) == seq![digit_char(v)]);
        assert(digits_value(digits(v, base), base) == digits_value(Seq::<u8>::empty(), base) * base + digit_of(
            digit_char(v),
        ));
    } else {
        vstd::arithmetic::div_mod::lemma_div_decreases(v as int, base as int);
        vstd::arithmetic::div_mod::lemma_div_non_zero(v as int, base as int);
        law_digits_value(v / base, base);
        assert(digits(v, base).drop_last() =~= digits(v / base, base));
        vstd::arithmetic::div_mod::lemma_fundamental_div_mod(v as int, base as int);
        assert(v / base > 0);
        assert(digits(v, base)[0] == digits(v / base, base)[0]);
        assert(digits(v, base).last() == digit_char(d));
        assert(digits_value(digits(v, base), base) == digits_value(digits(v / base, base), base) * base
            + digit_of(digit_char(d)));
        assert((v / base) * base + d == v) by (nonlinear_arith)
            requires
                v == base * (v / base) + v % base,
                d == v % base,
        ;
    }
}

/// Whether `c` is white space as `char::is_whitespace` sees it (Unicode
/// `White_Space`).
pub open spec fn is_space(c: char) -> bool {
    (c as u32 >= 0x09 && c as u32 <= 0x0D) || c == ' ' || c as u32 == 0x85 || c as u32 == 0xA0 || c as u32
        == 0x1680 || (c as u32 >= 0x2000 && c as u32 <= 0x200A) || c as u32 == 0x2028 || c as u32 == 0x2029
        || c as u32 == 0x202F || c as u32 == 0x205F || c as u32 == 0x3000
}

fn char_is_space(c: char) -> (r: bool)
    ensures
        r == is_space(c),
{
    let u = c as u32;
    (u >= 0x09 && u <= 0x0D) || u == 0x20 || u == 0x85 || u == 0xA0 || u == 0x1680 || (u >= 0x2000 && u
        <= 0x200A) || u == 0x2028 || u == 0x2029 || u == 0x202F || u == 0x205F || u == 0x3000
}

/// The words of `s`: the runs of characters between white space, as
/// `str::split_whitespace` gives them.
pub open spec fn words(s: Seq<char>) -> Seq<Seq<char>>
    decreases s.len(),
{
    if s.len() == 0 {
        Seq::empty()
    } else if is_space(s.last()) {
        words(s.drop_last())
    } else if s.len() >= 2 && !is_space(s[s.len() - 2]) {
        let w = words(s.drop_last());
        w.update(w.len() - 1, w.last().push(s.last()))
    } else {
        words(s.drop_last()).push(seq![s.last()])
    }
}

/// The views of some strings.
pub open spec fn views(v: Seq<String>) -> Seq<Seq<char>> {
    v.map_values(|s: String| s@)
}

/// The words of `line`.
pub fn split_words(line: &str) -> (r: Vec<String>)
    ensures
        views(r@) == words(line@),
{
    let n = line.unicode_len();
    let ghost t = line@;
    let mut out: Vec<String> = Vec::new();
    let mut in_word = false;
    let mut start: usize = 0;
    let mut i: usize = 0;
    assert(t.take(0) =~= Seq::<char>::empty());
    assert(views(out@) =~= Seq::<Seq<char>>::empty());
    while i < n
        invariant
            n == t.len(),
            t == line@,
            i <= n,
            start <= i,
            in_word ==> start < i && !is_space(t[i - 1]),
            !in_word ==> (i == 0 || is_space(t[i - 1])),
            in_word ==> words(t.take(i as int)) == views(out@).push(t.subrange(start as int, i as int)),
            !in_word ==> words(t.take(i as int)) == views(out@),
        decreases n - i,
    {
        let c = line.get_char(i);
        let ghost prefix = t.take(i as int);
        assert(t.take(i + 1).drop_last() =~= prefix);
        assert(t.take(i + 1).last() == c);
        if char_is_space(c) {
            if in_word {
                let w = String::from_str(line.substring_char(start, i));
                let ghost before = out@;
                out.push(w);
                in_word = false;
                assert(views(before).push(w@) =~= views(out@));
            }
        } else {
            if in_word {
                proof {
                    assert(t.take(i + 1)[i - 1] == t[i - 1]);
                    let w = words(prefix);
                    assert(t.subrange(start as int, i as int).push(c) =~= t.subrange(start as int, i + 1));
                    assert(w.update(w.len() - 1, w.last().push(c)) =~= views(out@).push(t.subrange(start as int, i + 1)));
                }
            } else {
                in_word = true;
                start = i;
                proof {
                    if i >= 1 {
                        assert(t.take(i + 1)[i - 1] == t[i - 1]);
                    }
                    assert(seq![c] =~= t.subrange(i as int, i + 1));
                }
            }
        }
        i = i + 1;
    }
    assert(t.take(n as int) =~= t);
    if in_word {
        let w = String::from_str(line.substring_char(start, n));
        let ghost before = out@;
        out.push(w);
        assert(views(before).push(w@) =~= views(out@));
    }
    out
}

/// Whether `bytes` are valid UTF-8.
///
/// Trusted: calls `core::str::from_utf8`, which returns `Ok` exactly when the
/// bytes are valid UTF-8; the contract claims that `valid_utf8` is that
/// validity.
#[verifier::external_body]
fn is_utf8(bytes: &[u8]) -> (r: bool)
    ensures
        r == valid_utf8(bytes@),
{
    core::str::from_utf8(bytes).is_ok()
}

/// Adds `bytes` at the end of `out`.
fn append(out: &mut Vec<u8>, bytes: &[u8])
    ensures
        final(out)@ == old(out)@ + bytes@,
{
    let mut i: usize = 0;
    while i < bytes.len()
        invariant
            i <= bytes@.len(),
            out@ == old(out)@ + bytes@.take(i as int),
        decreases bytes@.len() - i,
    {
        out.push(bytes[i]);
        i = i + 1;
        assert(out@ =~= old(out)@ + bytes@.take(i as int));
    }
    assert(bytes@.take(i as int) =~= bytes@);
}

/// Whether the string `s` is the text `lit`.
fn is_text(s: &String, lit: &str) -> (r: bool)
    ensures
        r == (s@ == lit@),
{
    *s == String::from_str(lit)
}

/// The line that reports error `e`.
pub open spec fn error_line(e: &str) -> Seq<u8> {
    "Error: ".spec_bytes() + e.spec_bytes() + seq![10u8]
}

/// What the shell prints for the result of a command: nothing on success,
/// the error line on failure.
pub open spec fn result_text(r: Result<(), &str>) -> Seq<u8> {
    match r {
        Ok(_) => Seq::empty(),
        Err(e) => error_line(e),
    }
}

/// The listing of a directory: each name on a line, with `/` after the name
/// of a directory.
pub open spec fn listing(items: Seq<(Seq<char>, bool)>) -> Seq<u8>
    decreases items.len(),
{
    if items.len() == 0 {
        Seq::empty()
    } else {
        listing(items.drop_last()) + encode_utf8(items.last().0) + if items.last().1 {
            "/\n".spec_bytes()
        } else {
            seq![10u8]
        }
    }
}

/// What the shell prints for `cat`: the content and a newline if it is text,
/// a note if it is not, or the error.
pub open spec fn cat_text(r: Result<Seq<u8>, &str>) -> Seq<u8> {
    match r {
        Ok(c) => if valid_utf8(c) {
            c.push(10)
        } else {
            "(binary file)\n".spec_bytes()
        },
        Err(e) => error_line(e),
    }
}

/// What a command line does.
pub struct CommandOutcome {
    /// The file system after it.
    pub fs: FsView,
    /// What it prints.
    pub text: Seq<u8>,
    /// Whether it clears the screen.
    pub clear_screen: bool,
    /// Whether it starts the game.
    pub start_game: bool,
}

/// A command that only prints `text`.
pub open spec fn printing(fs: FsView, text: Seq<u8>) -> CommandOutcome {
    CommandOutcome { fs, text, clear_screen: false, start_game: false }
}

/// What the command line with words `ws` does to `fs`. The first word names
/// the command; missing arguments give a usage line, except for `cd`, which
/// goes to `/`, and `touch`, whose content is then empty.
pub open spec fn run_command(fs: FsView, ws: Seq<Seq<char>>) -> CommandOutcome {
    if ws.len() == 0 {
        printing(fs, Seq::empty())
    } else {
        let cmd = ws[0];
        if cmd == "help"@ {
            printing(fs, "Commands: help, clear, ls, cd, mkdir, touch, cat, mv, pwd\n".spec_bytes())
        } else if cmd == "clear"@ {
            CommandOutcome { fs, text: Seq::empty(), clear_screen: true, start_game: false }
        } else if cmd == "pwd"@ {
            printing(fs, encode_utf8(pwd_text(fs.cwd)).push(10))
        } else if cmd == "ls"@ {
            printing(fs, listing(ls_outcome(fs)))
        } else if cmd == "cd"@ {
            let target = if ws.len() >= 2 {
                ws[1]
            } else {
                "/"@
            };
            let (fs2, r) = cd_outcome(fs, target);
            printing(fs2, result_text(r))
        } else if cmd == "mkdir"@ {
            if ws.len() >= 2 {
                let (fs2, r) = mkdir_outcome(fs, ws[1]);
                printing(fs2, result_text(r))
            } else {
                printing(fs, "Usage: mkdir <name>\n".spec_bytes())
            }
        } else if cmd == "touch"@ {
            if ws.len() >= 2 {
                let content = if ws.len() >= 3 {
                    encode_utf8(ws[2])
                } else {
                    Seq::empty()
                };
                let (fs2, r) = touch_outcome(fs, ws[1], content);
                printing(fs2, result_text(r))
            } else {
                printing(fs, "Usage: touch <name> [content]\n".spec_bytes())
            }
        } else if cmd == "cat"@ {
            if ws.len() >= 2 {
                printing(fs, cat_text(cat_outcome(fs, ws[1])))
            } else {
                printing(fs, "Usage: cat <name>\n".spec_bytes())
            }
        } else if cmd == "mv"@ {
            if ws.len() >= 3 {
                let (fs2, r) = mv_outcome(fs, ws[1], ws[2]);
                printing(fs2, result_text(r))
            } else {
                printing(fs, "Usage: mv <source> <destination>\n".spec_bytes())
            }
        } else if cmd == "backrooms"@ {
            CommandOutcome { fs, text: Seq::empty(), clear_screen: false, start_game: true }
        } else {
            printing(fs, "Unknown command: ".spec_bytes() + encode_utf8(cmd) + seq![10u8])
        }
    }
}

/// What a command line prints, and whether it clears the screen or starts
/// the game.
pub struct CommandOutput {
    pub text: Vec<u8>,
    pub clear_screen: bool,
    pub start_game: bool,
}

/// Appends the line for the result of a command.
fn report(out: &mut Vec<u8>, r: Result<(), &'static str>)
    ensures
        final(out)@ == old(out)@ + result_text(r),
{
    match r {
        Ok(()) => {
            assert(old(out)@ + Seq::<u8>::empty() =~= old(out)@);
        },
        Err(e) => {
            let ghost start = out@;
            append(out, "Error: ".as_bytes());
            append(out, e.as_bytes());
            out.push(10);
            assert(out@ =~= start + error_line(e));
        },
    }
}

/// Runs the command line `line` on `fs` (see `run_command`).
pub fn execute_command(fs: &mut FileSystem, line: &str) -> (out: CommandOutput)
    ensures
        ({
            let o = run_command(old(fs)@, words(line@));
            &&& final(fs)@ == o.fs
            &&& out.text@ == o.text
            &&& out.clear_screen == o.clear_screen
            &&& out.start_game == o.start_game
        }),
{
    let ws = split_words(line);
    let ghost w = views(ws@);
    let mut text: Vec<u8> = Vec::new();
    if ws.len() == 0 {
        return CommandOutput { text, clear_screen: false, start_game: false };
    }
    let cmd = &ws[0];
    assert(w[0] == cmd@);
    if is_text(cmd, "help") {
        append(&mut text, "Commands: help, clear, ls, cd, mkdir, touch, cat, mv, pwd\n".as_bytes());
        assert(text@ =~= "Commands: help, clear, ls, cd, mkdir, touch, cat, mv, pwd\n".spec_bytes());
    } else if is_text(cmd, "clear") {
        return CommandOutput { text, clear_screen: true, start_game: false };
    } else if is_text(cmd, "pwd") {
        let p = fs.pwd();
        append(&mut text, p.as_str().as_bytes());
        text.push(10);
    } else if is_text(cmd, "ls") {
        let items = fs.ls();
        let ghost listed = ls_outcome(fs@);
        let mut i: usize = 0;
        while i < items.len()
            invariant
                i <= items@.len(),
                items@.map_values(|e: (String, bool)| (e.0@, e.1)) == listed,
                text@ == listing(listed.take(i as int)),
            decreases items@.len() - i,
        {
            let ghost before = text@;
            let item = &items[i];
            assert(listed[i as int] == (item.0@, item.1));
            append(&mut text, item.0.as_str().as_bytes());
            if item.1 {
                append(&mut text, "/\n".as_bytes());
            } else {
                text.push(10);
            }
            assert(listed.take(i + 1).drop_last() =~= listed.take(i as int));
            assert(listed.take(i + 1).last() == listed[i as int]);
            i = i + 1;
            assert(text@ =~= listing(listed.take(i as int)));
        }
        assert(listed.take(i as int) =~= listed);
    } else if is_text(cmd, "cd") {
        let r = if ws.len() >= 2 {
            fs.cd(ws[1].as_str())
        } else {
            fs.cd("/")
        };
        report(&mut text, r);
        assert(text@ =~= result_text(r));
    } else if is_text(cmd, "mkdir") {
        if ws.len() >= 2 {
            let r = fs.mkdir(ws[1].as_str());
            report(&mut text, r);
            assert(text@ =~= result_text(r));
        } else {
            append(&mut text, "Usage: mkdir <name>\n".as_bytes());
            assert(text@ =~= "Usage: mkdir <name>\n".spec_bytes());
        }
    } else if is_text(cmd, "touch") {
        if ws.len() >= 2 {
            let r = if ws.len() >= 3 {
                fs.touch(ws[1].as_str(), ws[2].as_str().as_bytes())
            } else {
                fs.touch(ws[1].as_str(), "".as_bytes())
            };
            proof {
                reveal_strlit("");
                if ws.len() < 3 {
                    assert(encode_utf8(""@) =~= Seq::<u8>::empty()) by {
                        assert(""@ =~= Seq::<char>::empty());
                    }
                }
            }
            report(&mut text, r);
            assert(text@ =~= result_text(r));
        } else {
            append(&mut text, "Usage: touch <name> [content]\n".as_bytes());
            assert(text@ =~= "Usage: touch <name> [content]\n".spec_bytes());
        }
    } else if is_text(cmd, "cat") {
        if ws.len() >= 2 {
            match fs.cat(ws[1].as_str()) {
                Ok(content) => {
                    if is_utf8(content.as_slice()) {
                        append(&mut text, content.as_slice());
                        text.push(10);
                    } else {
                        append(&mut text, "(binary file)\n".as_bytes());
                    }
                },
                Err(e) => {
                    report(&mut text, Err(e));
                },
            }
        } else {
            append(&mut text, "Usage: cat <name>\n".as_bytes());
        }
    } else if is_text(cmd, "mv") {
        if ws.len() >= 3 {
            let r = fs.mv(ws[1].as_str(), ws[2].as_str());
            report(&mut text, r);
            assert(text@ =~= result_text(r));
        } else {
            append(&mut text, "Usage: mv <source> <destination>\n".as_bytes());
        }
    } else if is_text(cmd, "backrooms") {
        return CommandOutput { text, clear_screen: false, start_game: true };
    } else {
        append(&mut text, "Unknown command: ".as_bytes());
        append(&mut text, cmd.as_str().as_bytes());
        text.push(10);
    }
    CommandOutput { text, clear_screen: false, start_game: false }
}

/// The prompt: the user, the host and the current directory.
pub fn prompt(fs: &FileSystem) -> (r: Vec<u8>)
    ensures
        r@ == "nome@os:".spec_bytes() + encode_utf8(pwd_text(fs@.cwd)) + "$ ".spec_bytes(),
{
    let mut out: Vec<u8> = Vec::new();
    append(&mut out, "nome@os:".as_bytes());
    let p = fs.pwd();
    append(&mut out, p.as_str().as_bytes());
    append(&mut out, "$ ".as_bytes());
    assert(out@ =~= "nome@os:".spec_bytes() + encode_utf8(pwd_text(fs@.cwd)) + "$ ".spec_bytes());
    out
}

/// Law: only `cd`, `mkdir`, `touch` and `mv` change the file system; every
/// other command line leaves it as it was.
pub proof fn law_other_commands_keep_file_system(fs: FsView, ws: Seq<Seq<char>>)
    requires
        ws.len() > 0 ==> ws[0] != "cd"@ && ws[0] != "mkdir"@ && ws[0] != "touch"@ && ws[0] != "mv"@,
    ensures
        run_command(fs, ws).fs == fs,
{
}

/// A text that ends in a character other than white space has a word.
proof fn lemma_words_nonempty(s: Seq<char>)
    requires
        s.len() > 0,
        !is_space(s.last()),
    ensures
        words(s).len() >= 1,
    decreases s.len(),
{
    if s.len() >= 2 && !is_space(s[s.len() - 2]) {
        assert(s.drop_last().last() == s[s.len() - 2]);
        lemma_words_nonempty(s.drop_last());
    }
}

/// Law: a text with no white space in it, and not empty, is one word.
pub proof fn law_words_single(s: Seq<char>)
    requires
        s.len() > 0,
        forall|i: int| 0 <= i < s.len() ==> !is_space(#[trigger] s[i]),
    ensures
        words(s) == seq![s],
    decreases s.len(),
{
    if s.len() == 1 {
        assert(!is_space(s[0]));
        assert(s.drop_last() =~= Seq::<char>::empty());
        assert(words(s.drop_last()) == Seq::<Seq<char>>::empty());
        assert(seq![s.last()] =~= s);
        assert(Seq::<Seq<char>>::empty().push(seq![s.last()]) =~= seq![s]);
    } else {
        let d = s.drop_last();
        assert forall|i: int| 0 <= i < d.len() implies !is_space(#[trigger] d[i]) by {
            assert(d[i] == s[i]);
        }
        law_words_single(d);
        assert(!is_space(s[s.len() - 2]));
        assert(!is_space(s[s.len() - 1]));
        assert(d.push(s.last()) =~= s);
        assert(seq![d].update(0, d.push(s.last())) =~= seq![s]);
    }
}

/// Law: white space separates words: the words of `s`, a space and `t` are
/// the words of `s` followed by the words of `t`.
pub proof fn law_words_split_at_space(s: Seq<char>, t: Seq<char>)
    ensures
        words(s + seq![' '] + t) == words(s) + words(t),
    decreases t.len(),
{
    let u = s + seq![' '] + t;
    if t.len() == 0 {
        assert(u.drop_last() =~= s);
        assert(is_space(u.last()));
        assert(words(s) + Seq::<Seq<char>>::empty() =~= words(s));
    } else {
        let d = t.drop_last();
        let c = t.last();
        assert(u.drop_last() =~= s + seq![' '] + d);
        assert(u.last() == c);
        law_words_split_at_space(s, d);
        if is_space(c) {
        } else if t.len() >= 2 && !is_space(t[t.len() - 2]) {
            assert(u[u.len() - 2] == t[t.len() - 2]);
            assert(d.last() == t[t.len() - 2]);
            lemma_words_nonempty(d);
            let wd = words(d);
            let w = words(s) + wd;
            assert(w.update(w.len() - 1, w.last().push(c)) =~= words(s) + wd.update(
                wd.len() - 1,
                wd.last().push(c),
            ));
        } else {
            assert(u.len() >= 2);
            if t.len() >= 2 {
                assert(u[u.len() - 2] == t[t.len() - 2]);
            } else {
                assert(u[u.len() - 2] == ' ');
                assert(d =~= Seq::<char>::empty());
            }
            assert((words(s) + words(d)).push(seq![c]) =~= words(s) + words(d).push(seq![c]));
        }
    }
}

} // verus!
