//! The compute half of the command shell: splitting an input line into
//! whitespace-separated arguments, line editing one byte at a time, and
//! assembling the `echo` reply. The console loop that feeds bytes in and
//! prints replies lives outside the library.

use vstd::prelude::*;

use crate::stack_vec::StackVec;

verus! {

/// The space byte that separates arguments on an input line.
pub const SPACE: u8 = 0x20;

/// Why parsing a command line failed.
#[derive(Clone, Copy, Debug, PartialEq, Eq, Structural)]
pub enum CommandError {
    /// The line holds no arguments at all.
    Empty,
    /// The line holds more arguments than the supplied buffer can hold.
    TooManyArgs,
}

/// One step of splitting on spaces: feed byte `b` into the accumulated
/// complete words and the word currently being read.
pub open spec fn split_step(acc: (Seq<Seq<u8>>, Seq<u8>), b: u8) -> (Seq<Seq<u8>>, Seq<u8>) {
    if b == SPACE {
        if acc.1.len() > 0 {
            (acc.0.push(acc.1), Seq::empty())
        } else {
            acc
        }
    } else {
        (acc.0, acc.1.push(b))
    }
}

/// Splitting all of `s` on spaces, left to right: the complete words seen
/// so far and the trailing word still open.
pub open spec fn split_run(s: Seq<u8>) -> (Seq<Seq<u8>>, Seq<u8>)
    decreases s.len(),
{
    if s.len() == 0 {
        (Seq::empty(), Seq::empty())
    } else {
        split_step(split_run(s.drop_last()), s.last())
    }
}

/// The whitespace-separated words of `s`, in order, empty words dropped.
pub open spec fn words_of(s: Seq<u8>) -> Seq<Seq<u8>> {
    let r = split_run(s);
    if r.1.len() > 0 {
        r.0.push(r.1)
    } else {
        r.0
    }
}

/// Words only accumulate: a prefix of the line never has more words than
/// the whole line.
pub proof fn lemma_words_prefix(s: Seq<u8>, i: int)
    requires
        0 <= i <= s.len(),
    ensures
        words_of(s.take(i)).len() <= words_of(s).len(),
    decreases s.len() - i,
{
    if i < s.len() {
        lemma_words_prefix(s, i + 1);
        assert(s.take(i + 1).drop_last() =~= s.take(i));
    } else {
        assert(s.take(i) =~= s);
    }
}

/// One parsed shell command: its arguments, of which the first is the
/// command's path.
pub struct Command {
    args: StackVec<Vec<u8>>,
}

impl Command {
    /// The parsed arguments, as byte strings.
    pub closed spec fn args_view(&self) -> Seq<Seq<u8>> {
        self.args@.map_values(|v: Vec<u8>| v@)
    }

    /// A command always holds at least one argument, its path.
    pub closed spec fn wf(&self) -> bool {
        self.args.wf() && self.args@.len() > 0
    }

    /// Parse `line` into whitespace-separated arguments, storing them in
    /// `buf`, whose length bounds how many arguments can be held.
    ///
    /// A line with no arguments is `CommandError::Empty`; one with more
    /// arguments than `buf` can hold is `CommandError::TooManyArgs`.
    #[verifier::loop_isolation(false)]
    pub fn parse(line: &[u8], buf: Vec<Vec<u8>>) -> (r: Result<Command, CommandError>)
        ensures
            ({
                let w = words_of(line@);
                if w.len() > buf@.len() {
                    r == Err::<Command, CommandError>(CommandError::TooManyArgs)
                } else if w.len() == 0 {
                    r == Err::<Command, CommandError>(CommandError::Empty)
                } else {
                    r matches Ok(c) && c.wf() && c.args_view() == w
                }
            }),
    {
        let ghost cap = buf@.len();
        let mut args: StackVec<Vec<u8>> = StackVec::new(buf);
        let mut cur: Vec<u8> = Vec::new();
        let mut i: usize = 0;
        proof {
            assert(line@.take(0) =~= Seq::<u8>::empty());
        }
        while i < line.len()
            invariant
                i <= line@.len(),
                args.wf(),
                args.spec_capacity() == cap,
                (args@.map_values(|v: Vec<u8>| v@), cur@) == split_run(line@.take(i as int)),
            decreases line@.len() - i,
        {
            let b = line[i];
            proof {
                assert(line@.take(i + 1).drop_last() =~= line@.take(i as int));
                assert(line@.take(i + 1).last() == line@[i as int]);
            }
            if b == SPACE {
                if cur.len() > 0 {
                    let ghost pre_args = args@.map_values(|v: Vec<u8>| v@);
                    let full = args.is_full();
                    if full {
                        proof {
                            assert(words_of(line@.take(i + 1)).len() >= cap + 1);
                            lemma_words_prefix(line@, i + 1);
                        }
                        return Err(CommandError::TooManyArgs);
                    }
                    let word = cur;
                    cur = Vec::new();
                    proof {
                        args.lemma_len_bounded();
                    }
                    let _ = args.push(word);
                    proof {
                        assert(args@.map_values(|v: Vec<u8>| v@) =~= pre_args.push(word@));
                    }
                }
            } else {
                cur.push(b);
            }
            i = i + 1;
        }
        proof {
            assert(line@.take(line@.len() as int) =~= line@);
        }
        if cur.len() > 0 {
            let ghost pre_args = args@.map_values(|v: Vec<u8>| v@);
            let ghost cur_v = cur@;
            if args.is_full() {
                return Err(CommandError::TooManyArgs);
            }
            proof {
                args.lemma_len_bounded();
            }
            let _ = args.push(cur);
            proof {
                assert(args@.map_values(|v: Vec<u8>| v@) =~= pre_args.push(cur_v));
                assert(words_of(line@) == pre_args.push(cur_v));
            }
        }
        if args.is_empty() {
            return Err(CommandError::Empty);
        }
        proof {
            args.lemma_len_bounded();
        }
        Ok(Command { args })
    }

    /// This command's path: its first argument.
    pub fn path(&self) -> (r: &Vec<u8>)
        requires
            self.wf(),
        ensures
            r@ == self.args_view()[0],
    {
        self.args.get(0)
    }

    /// How many arguments the command holds, the path included.
    pub fn arg_count(&self) -> (r: usize)
        requires
            self.wf(),
        ensures
            r == self.args_view().len(),
    {
        self.args.len()
    }

    /// The argument at index `i`.
    pub fn arg(&self, i: usize) -> (r: &Vec<u8>)
        requires
            self.wf(),
            i < self.args_view().len(),
        ensures
            r@ == self.args_view()[i as int],
    {
        self.args.get(i)
    }

    /// Whether this command's path is exactly `name`.
    pub fn is_named(&self, name: &[u8]) -> (r: bool)
        requires
            self.wf(),
        ensures
            r == (self.args_view()[0] == name@),
    {
        let path = self.path();
        if path.len() != name.len() {
            proof {
                assert(self.args_view()[0] != name@);
            }
            return false;
        }
        let mut i: usize = 0;
        while i < name.len()
            invariant
                i <= name@.len(),
                path@.len() == name@.len(),
                path@ == self.args_view()[0],
                forall|j: int| 0 <= j < i ==> path@[j] == name@[j],
            decreases name@.len() - i,
        {
            if path[i] != name[i] {
                return false;
            }
            i = i + 1;
        }
        proof {
            assert(self.args_view()[0] =~= name@);
        }
        true
    }
}

/// The words of a reply line, joined with single spaces: what `echo`
/// prints for its arguments.
pub open spec fn joined(ws: Seq<Seq<u8>>) -> Seq<u8>
    decreases ws.len(),
{
    if ws.len() == 0 {
        Seq::empty()
    } else if ws.len() == 1 {
        ws[0]
    } else {
        joined(ws.drop_last()) + seq![SPACE] + ws.last()
    }
}

/// The reply of the `echo` command: every argument after the path, joined
/// with single spaces.
#[verifier::loop_isolation(false)]
pub fn echo_line(cmd: &Command) -> (r: Vec<u8>)
    requires
        cmd.wf(),
    ensures
        r@ == joined(cmd.args_view().skip(1)),
{
    let ghost ws = cmd.args_view().skip(1);
    let mut out: Vec<u8> = Vec::new();
    let mut k: usize = 1;
    proof {
        assert(ws.take(0) =~= Seq::<Seq<u8>>::empty());
    }
    while k < cmd.arg_count()
        invariant
            1 <= k,
            cmd.args_view().len() >= 1,
            k <= cmd.args_view().len(),
            out@ == joined(ws.take(k - 1)),
        decreases cmd.args_view().len() - k,
    {
        if k > 1 {
            out.push(SPACE);
        }
        let word = cmd.arg(k);
        let ghost mid = out@;
        let mut j: usize = 0;
        while j < word.len()
            invariant
                j <= word@.len(),
                out@ == mid + word@.take(j as int),
            decreases word@.len() - j,
        {
            out.push(word[j]);
            proof {
                assert(word@.take(j + 1) =~= word@.take(j as int).push(word@[j as int]));
            }
            j = j + 1;
        }
        proof {
            assert(word@.take(word@.len() as int) =~= word@);
            assert(ws.take(k - 1 + 1).drop_last() =~= ws.take(k - 1));
            assert(ws.take(k as int).last() == ws[k - 1]);
            assert(ws[k - 1] == cmd.args_view()[k as int]);
        }
        k = k + 1;
    }
    proof {
        assert(ws.take(cmd.args_view().len() - 1) =~= ws);
    }
    out
}

/// What the line editor did with one input byte.
#[derive(Clone, Copy, Debug, PartialEq, Eq, Structural)]
pub enum EditAction {
    /// A backspace or delete byte removed the last buffered byte; the
    /// console should erase one character.
    Erased,
    /// A backspace or delete byte arrived with nothing to erase.
    NoOp,
    /// A carriage return or newline ended the line; the buffer holds it.
    LineDone,
    /// The byte was stored and should be echoed.
    Stored,
    /// The buffer is full; the console should ring the bell.
    Full,
}

/// Feed one console byte into the line buffer: backspace and delete
/// (bytes 8 and 127) erase the last byte if any; carriage return and
/// newline (bytes 13 and 10) end the line; anything else is stored if
/// there is room and rejected with a bell when there is none.
pub fn edit_byte(line: &mut StackVec<u8>, byte: u8) -> (r: EditAction)
    requires
        old(line).wf(),
    ensures
        final(line).wf(),
        final(line).spec_capacity() == old(line).spec_capacity(),
        (byte == 8 || byte == 127) ==> (if old(line)@.len() > 0 {
            r == EditAction::Erased && final(line)@ == old(line)@.drop_last()
        } else {
            r == EditAction::NoOp && final(line)@ == old(line)@
        }),
        (byte == 10 || byte == 13) ==> r == EditAction::LineDone && final(line)@ == old(line)@,
        !(byte == 8 || byte == 127 || byte == 10 || byte == 13) ==> (if old(line)@.len() < old(
            line,
        ).spec_capacity() {
            r == EditAction::Stored && final(line)@ == old(line)@.push(byte)
        } else {
            r == EditAction::Full && final(line)@ == old(line)@
        }),
{
    if byte == 8 || byte == 127 {
        match line.pop() {
            Some(_) => EditAction::Erased,
            None => EditAction::NoOp,
        }
    } else if byte == 10 || byte == 13 {
        EditAction::LineDone
    } else {
        proof {
            line.lemma_len_bounded();
        }
        match line.push(byte) {
            Ok(_) => EditAction::Stored,
            Err(_) => EditAction::Full,
        }
    }
}

} // verus!
