//! The interactive shell: splitting a line, reading a command, and what is done about an error.
//! Each line is one command that is sent to a server; printing and waiting is left to the caller.

use vstd::prelude::*;
use crate::client::error::{ClientError, ClientErrorView};
use crate::pd::cluster::Regime;
use crate::text;

verus! {

/// How often a command is tried while a cluster is between leaders.
pub const MAX_TRIES: u32 = 40;

/// The port below that of the first node of a local cluster.
pub const BASE_PORT: u64 = 50060;

/// How far a line is split: the tokens that are complete, the one that is begun, and whether a
/// quote is open.
#[verifier::ext_equal]
pub struct Splitting {
    pub done: Seq<Seq<char>>,
    pub cur: Seq<char>,
    pub quoted: bool,
    pub begun: bool,
}

impl Splitting {
    /// Nothing read yet.
    pub open spec fn start() -> Splitting {
        Splitting { done: Seq::empty(), cur: Seq::empty(), quoted: false, begun: false }
    }

    /// One more character: a quote begins a token and opens or closes a quoted stretch, white
    /// space outside of one ends a token, and anything else goes into the token.
    pub open spec fn next(self, c: char) -> Splitting {
        if c == '"' {
            Splitting { begun: true, quoted: !self.quoted, ..self }
        } else if text::is_white(c) && !self.quoted {
            if self.begun {
                Splitting {
                    done: self.done.push(self.cur),
                    cur: Seq::empty(),
                    begun: false,
                    ..self
                }
            } else {
                self
            }
        } else {
            Splitting { cur: self.cur.push(c), begun: true, ..self }
        }
    }

    /// The tokens, once the line is at its end.
    pub open spec fn tokens(self) -> Seq<Seq<char>> {
        if self.begun {
            self.done.push(self.cur)
        } else {
            self.done
        }
    }
}

/// How far a line is split after all of its characters.
pub open spec fn splitting(line: Seq<char>) -> Splitting
    decreases line.len(),
{
    if line.len() == 0 {
        Splitting::start()
    } else {
        splitting(line.drop_last()).next(line.last())
    }
}

/// The tokens of a line.
pub open spec fn tokens(line: Seq<char>) -> Seq<Seq<char>> {
    splitting(line).tokens()
}

/// Split a line into tokens on white space, honouring `"double quotes"`, so that a value can
/// contain spaces.
pub fn tokenize(line: &str) -> (r: Vec<String>)
    ensures
        text::strings(r@) == tokens(line@),
{
    let n: usize = line.unicode_len();
    let mut out: Vec<String> = Vec::new();
    let mut cur: String = String::new();
    let mut quoted: bool = false;
    let mut begun: bool = false;
    let mut i: usize = 0;
    proof {
        assert(line@.take(0) =~= Seq::<char>::empty());
        assert(text::strings(out@) =~= Seq::<Seq<char>>::empty());
        assert(cur@ =~= Seq::<char>::empty());
    }
    while i < n
        invariant
            0 <= i <= n,
            n == line@.len(),
            splitting(line@.take(i as int)) == (Splitting {
                done: text::strings(out@),
                cur: cur@,
                quoted,
                begun,
            }),
        decreases n - i,
    {
        let ghost done = text::strings(out@);
        let ghost last = cur@;
        let c: char = line.get_char(i);
        assert(line@.take(i + 1).drop_last() =~= line@.take(i as int));
        if c == '"' {
            begun = true;
            quoted = !quoted;
        } else if text::white(c) && !quoted {
            if begun {
                out.push(cur);
                cur = String::new();
                begun = false;
                assert(text::strings(out@) =~= done.push(last));
                assert(cur@ =~= Seq::<char>::empty());
            }
        } else {
            cur.push(c);
            begun = true;
        }
        i = i + 1;
    }
    assert(line@.take(i as int) =~= line@);
    let ghost done = text::strings(out@);
    let ghost last = cur@;
    if begun {
        out.push(cur);
        assert(text::strings(out@) =~= done.push(last));
    }
    out
}

/// No token holds a quote, whatever the line.
pub proof fn law_no_quotes(line: Seq<char>)
    ensures
        forall|i: int| 0 <= i < tokens(line).len() ==> !(#[trigger] tokens(line)[i]).contains('"'),
{
    lemma_no_quotes(line);
}

proof fn lemma_no_quotes(line: Seq<char>)
    ensures
        forall|i: int|
            0 <= i < splitting(line).done.len() ==> !(#[trigger] splitting(line).done[i]).contains(
                '"',
            ),
        !splitting(line).cur.contains('"'),
    decreases line.len(),
{
    if line.len() > 0 {
        let before = splitting(line.drop_last());
        let c = line.last();
        lemma_no_quotes(line.drop_last());
        if c != '"' && !(text::is_white(c) && !before.quoted) {
            let t = before.cur.push(c);
            assert(!t.contains('"')) by {
                if t.contains('"') {
                    let k = choose|k: int| 0 <= k < t.len() && t[k] == '"';
                    assert(before.cur[k] == '"');
                    assert(before.cur.contains('"'));
                }
            }
        }
    }
}

/// The characters of a line that are not white space, in order.
pub open spec fn inked(line: Seq<char>) -> Seq<char> {
    line.filter(|c: char| !text::is_white(c))
}

/// Without quotes, the tokens of a line hold no white space and are not empty, and together they
/// are what the line holds besides white space.
pub proof fn law_plain_line(line: Seq<char>)
    requires
        !line.contains('"'),
    ensures
        tokens(line).flatten() == inked(line),
        forall|i: int|
            0 <= i < tokens(line).len() ==> (#[trigger] tokens(line)[i]).len() > 0 && inked(
                tokens(line)[i],
            ) == tokens(line)[i],
{
    lemma_plain_line(line);
    let st = splitting(line);
    if st.begun {
        lemma_flatten_push(st.done, st.cur);
    } else {
        assert(st.done.flatten() + st.cur =~= st.done.flatten());
    }
}

proof fn lemma_flatten_push(s: Seq<Seq<char>>, t: Seq<char>)
    ensures
        s.push(t).flatten() == s.flatten() + t,
    decreases s.len(),
{
    reveal(Seq::flatten);
    if s.len() == 0 {
        let none = Seq::<Seq<char>>::empty();
        assert(none.flatten() =~= Seq::<char>::empty());
        assert(s =~= none);
        assert(s.push(t).first() =~= t);
        assert(s.push(t).drop_first() =~= none);
        assert(s.push(t).flatten() =~= s.flatten() + t);
    } else {
        assert(s.push(t).drop_first() =~= s.drop_first().push(t));
        lemma_flatten_push(s.drop_first(), t);
        assert(s.push(t).flatten() =~= s.flatten() + t);
    }
}

proof fn lemma_plain_line(line: Seq<char>)
    requires
        !line.contains('"'),
    ensures
        ({
            let st = splitting(line);
            &&& !st.quoted
            &&& st.begun == (st.cur.len() > 0)
            &&& st.done.flatten() + st.cur == inked(line)
            &&& inked(st.cur) == st.cur
            &&& forall|i: int|
                0 <= i < st.done.len() ==> (#[trigger] st.done[i]).len() > 0 && inked(st.done[i])
                    == st.done[i]
        }),
    decreases line.len(),
{
    reveal(Seq::filter);
    reveal(Seq::flatten);
    let p = |c: char| !text::is_white(c);
    if line.len() == 0 {
        assert(splitting(line).done.flatten() + splitting(line).cur =~= inked(line));
    } else {
        let init = line.drop_last();
        let c = line.last();
        assert(line[line.len() - 1] == c);
        assert(c != '"');
        assert(!init.contains('"')) by {
            if init.contains('"') {
                let k = choose|k: int| 0 <= k < init.len() && init[k] == '"';
                assert(line[k] == '"');
            }
        }
        lemma_plain_line(init);
        let before = splitting(init);
        let st = splitting(line);
        if text::is_white(c) {
            assert(inked(line) == inked(init));
            if before.begun {
                lemma_flatten_push(before.done, before.cur);
                assert(st.done.flatten() + st.cur =~= before.done.flatten() + before.cur);
            }
        } else {
            assert(inked(line) == inked(init).push(c));
            assert(before.cur.push(c).drop_last() =~= before.cur);
            assert(inked(before.cur.push(c)) == before.cur.push(c));
            assert(st.done.flatten() + st.cur =~= (before.done.flatten() + before.cur).push(c));
        }
    }
}

/// Splitting goes on behind a place where nothing is begun as at the start of a line.
proof fn lemma_behind(x: Seq<char>, y: Seq<char>)
    requires
        !splitting(x).begun,
        !splitting(x).quoted,
        splitting(x).cur.len() == 0,
    ensures
        ({
            let a = splitting(x);
            let b = splitting(y);
            let c = splitting(x + y);
            &&& c.done == a.done + b.done
            &&& c.cur == b.cur
            &&& c.quoted == b.quoted
            &&& c.begun == b.begun
        }),
    decreases y.len(),
{
    if y.len() == 0 {
        assert(x + y =~= x);
        assert(splitting(x).done + splitting(y).done =~= splitting(x).done);
        assert(splitting(x).cur =~= splitting(y).cur);
    } else {
        let d = y.drop_last();
        lemma_behind(x, d);
        assert((x + y).drop_last() =~= x + d);
        assert((x + y).last() == y.last());
        let b = splitting(d);
        assert(splitting(x).done + b.done.push(b.cur) =~= (splitting(x).done + b.done).push(b.cur));
    }
}

/// What a line without an open quote has begun.
proof fn lemma_begun(x: Seq<char>)
    ensures
        !splitting(x).begun ==> splitting(x).cur.len() == 0 && !splitting(x).quoted,
        splitting(x).quoted == (quotes(x) % 2 == 1),
    decreases x.len(),
{
    reveal(Seq::filter);
    if x.len() > 0 {
        lemma_begun(x.drop_last());
    }
}

/// How many quotes a line holds.
pub open spec fn quotes(line: Seq<char>) -> nat {
    line.filter(|c: char| c == '"').len()
}

/// White space outside of quotes parts a line: the tokens in front of it and those behind it are
/// the tokens of the whole.
pub proof fn law_parted(x: Seq<char>, c: char, y: Seq<char>)
    requires
        text::is_white(c),
        quotes(x) % 2 == 0,
    ensures
        tokens(x.push(c) + y) == tokens(x) + tokens(y),
{
    lemma_begun(x);
    let w = x.push(c);
    assert(w.drop_last() =~= x);
    assert(c != '"');
    lemma_behind(w, y);
    let a = splitting(w);
    let b = splitting(y);
    assert(a.done == tokens(x));
    assert(tokens(x.push(c) + y) =~= tokens(x) + tokens(y));
}

/// A word without white space and quotes is one token, and so is anything without quotes in a pair
/// of them, white space and all.
pub proof fn law_one_token(s: Seq<char>)
    requires
        !s.contains('"'),
    ensures
        s.len() > 0 && (forall|i: int| 0 <= i < s.len() ==> !text::is_white(#[trigger] s[i]))
            ==> tokens(s) == seq![s],
        tokens(seq!['"'] + s + seq!['"']) == seq![s],
{
    if s.len() > 0 && (forall|i: int| 0 <= i < s.len() ==> !text::is_white(#[trigger] s[i])) {
        lemma_word(s);
        assert(tokens(s) =~= seq![s]);
    }
    lemma_stretch(s);
    let q = seq!['"'] + s;
    let l = seq!['"'] + s + seq!['"'];
    assert(l.drop_last() =~= q);
    assert(l.last() == '"');
    assert(tokens(l) =~= seq![s]);
}

proof fn lemma_word(s: Seq<char>)
    requires
        !s.contains('"'),
        forall|i: int| 0 <= i < s.len() ==> !text::is_white(#[trigger] s[i]),
    ensures
        splitting(s) == (Splitting {
            done: Seq::empty(),
            cur: s,
            quoted: false,
            begun: s.len() > 0,
        }),
    decreases s.len(),
{
    if s.len() > 0 {
        let d = s.drop_last();
        assert forall|i: int| 0 <= i < d.len() implies !text::is_white(#[trigger] d[i]) by {
            assert(s[i] == d[i]);
        }
        lemma_unquoted(s);
        lemma_word(d);
        assert(d.push(s.last()) =~= s);
        assert(!text::is_white(s[s.len() - 1]));
    } else {
        assert(s =~= Seq::<char>::empty());
    }
}

proof fn lemma_unquoted(s: Seq<char>)
    requires
        !s.contains('"'),
        s.len() > 0,
    ensures
        !s.drop_last().contains('"'),
        s.last() != '"',
{
    let d = s.drop_last();
    if d.contains('"') {
        let k = choose|k: int| 0 <= k < d.len() && d[k] == '"';
        assert(s[k] == '"');
    }
    assert(s[s.len() - 1] == s.last());
}

proof fn lemma_stretch(s: Seq<char>)
    requires
        !s.contains('"'),
    ensures
        splitting(seq!['"'] + s) == (Splitting {
            done: Seq::empty(),
            cur: s,
            quoted: true,
            begun: true,
        }),
    decreases s.len(),
{
    let q = seq!['"'] + s;
    if s.len() == 0 {
        assert(q.drop_last() =~= Seq::<char>::empty());
        assert(splitting(q.drop_last()) == Splitting::start());
        assert(q.last() == '"');
        assert(splitting(q).cur =~= s);
    } else {
        lemma_unquoted(s);
        lemma_stretch(s.drop_last());
        assert(q.drop_last() =~= seq!['"'] + s.drop_last());
        assert(q.last() == s.last());
        assert(s.drop_last().push(s.last()) =~= s);
    }
}

/// Bytes as they are shown: as text where they are, else as a list of numbers.
pub open spec fn shown(b: Seq<u8>) -> Seq<char> {
    match text::text_of(b) {
        Some(s) => s,
        None => text::byte_list(b),
    }
}

/// Bytes as they are shown.
pub fn render(bytes: &[u8]) -> (r: String)
    ensures
        r@ == shown(bytes@),
{
    match text::from_utf8(bytes) {
        Some(s) => s,
        None => {
            let mut s = String::new();
            text::push_byte_list(&mut s, bytes);
            assert(s@ =~= text::byte_list(bytes@));
            s
        },
    }
}

/// A pair of a scan as it is shown.
pub fn render_pair(key: &[u8], value: &[u8]) -> (r: String)
    ensures
        r@ == "  "@ + shown(key@) + " = "@ + shown(value@),
{
    let mut s = text::owned("  ");
    s.push_str(render(key).as_str());
    s.push_str(" = ");
    s.push_str(render(value).as_str());
    s
}

/// The number in a setting, where it is one.
pub open spec fn setting(s: Option<Seq<char>>) -> Option<nat> {
    match s {
        Some(t) => text::parse_unsigned(t, u64::MAX as nat),
        None => None,
    }
}

/// The port below that of the first node.
pub open spec fn base_port(s: Option<Seq<char>>) -> nat {
    match setting(s) {
        Some(p) => p,
        None => 50060,
    }
}

/// The endpoints of a local cluster.
pub open spec fn local_endpoints(n: nat, base: nat) -> Seq<Seq<char>> {
    Seq::new(n, |i: int| "http://127.0.0.1:"@ + text::decimal((base + i + 1) as nat))
}

/// The parts of an address list: without the white space around them, and without empty ones.
pub open spec fn listed(ps: Seq<Seq<char>>) -> Seq<Seq<char>>
    decreases ps.len(),
{
    if ps.len() == 0 {
        Seq::empty()
    } else {
        let t = text::trimmed(ps.last());
        if t.len() == 0 {
            listed(ps.drop_last())
        } else {
            listed(ps.drop_last()).push(t)
        }
    }
}

/// The endpoints that the settings name.
pub open spec fn endpoints(
    cluster: Option<Seq<char>>,
    base: Option<Seq<char>>,
    addr: Option<Seq<char>>,
) -> Seq<Seq<char>> {
    match setting(cluster) {
        Some(n) => local_endpoints(n, base_port(base)),
        None => listed(
            text::parts(
                match addr {
                    Some(a) => a,
                    None => "http://127.0.0.1:50051"@,
                },
                ',',
            ),
        ),
    }
}

/// A setting as characters.
pub open spec fn opt(s: Option<&str>) -> Option<Seq<char>> {
    match s {
        Some(t) => Some(t@),
        None => None,
    }
}

/// The node endpoints to talk to: a local cluster of ids `1..=N` on `base + i`, where its size is
/// a number; else an address list split on commas; else the one default.
pub fn resolve_endpoints(cluster: Option<&str>, base: Option<&str>, addr: Option<&str>) -> (r: Vec<
    String,
>)
    requires
        setting(opt(cluster)) matches Some(n) ==> base_port(opt(base)) + n <= u64::MAX,
    ensures
        text::strings(r@) == endpoints(opt(cluster), opt(base), opt(addr)),
{
    let mut out: Vec<String> = Vec::new();
    let size = match cluster {
        Some(t) => text::parse_u64(t, u64::MAX),
        None => None,
    };
    match size {
        Some(n) => {
            let start: u64 = match base {
                Some(t) => match text::parse_u64(t, u64::MAX) {
                    Some(p) => p,
                    None => BASE_PORT,
                },
                None => BASE_PORT,
            };
            let ghost want = local_endpoints(n as nat, start as nat);
            let mut i: u64 = 0;
            assert(text::strings(out@) =~= want.take(0));
            while i < n
                invariant
                    0 <= i <= n,
                    start + n <= u64::MAX,
                    want == local_endpoints(n as nat, start as nat),
                    text::strings(out@) == want.take(i as int),
                decreases n - i,
            {
                let ghost before = text::strings(out@);
                let mut s = text::owned("http://127.0.0.1:");
                text::push_decimal(&mut s, start + i + 1);
                let ghost sv = s@;
                out.push(s);
                proof {
                    assert(text::strings(out@) =~= before.push(sv));
                    assert(before.push(sv) =~= want.take(i + 1));
                }
                i = i + 1;
            }
            assert(want.take(n as int) =~= want);
            out
        },
        None => {
            let list: &str = match addr {
                Some(a) => a,
                None => "http://127.0.0.1:50051",
            };
            let ps = text::split(list, ',');
            let ghost all = text::strings(ps@);
            let mut i: usize = 0;
            assert(all.take(0) =~= Seq::<Seq<char>>::empty());
            assert(text::strings(out@) =~= Seq::<Seq<char>>::empty());
            while i < ps.len()
                invariant
                    0 <= i <= ps@.len(),
                    all == text::strings(ps@),
                    text::strings(out@) == listed(all.take(i as int)),
                decreases ps@.len() - i,
            {
                let ghost before = text::strings(out@);
                assert(all.take(i + 1).drop_last() =~= all.take(i as int));
                let t: &str = text::trim(ps[i].as_str());
                if t.unicode_len() > 0 {
                    out.push(text::owned(t));
                    assert(text::strings(out@) =~= before.push(t@));
                }
                i = i + 1;
            }
            assert(all.take(i as int) =~= all);
            out
        },
    }
}

/// What a line asks of the shell.
pub enum LineAction {
    /// Nothing.
    Blank,
    Quit,
    Help,
    /// Show the node that is presumed to lead.
    Leader,
    /// Talk to another server; none, if no address was given.
    Connect(Option<String>),
    /// Send a command to the server.
    Run,
}

/// What the tokens of a line ask of the shell.
pub open spec fn asks(args: Seq<Seq<char>>) -> LineAction {
    if args.len() == 0 {
        LineAction::Blank
    } else if args[0] == "quit"@ || args[0] == "exit"@ || args[0] == "q"@ {
        LineAction::Quit
    } else if args[0] == "help"@ || args[0] == "h"@ || args[0] == "?"@ {
        LineAction::Help
    } else if args[0] == "leader"@ {
        LineAction::Leader
    } else if args[0] == "connect"@ {
        LineAction::Connect(None)
    } else {
        LineAction::Run
    }
}

/// What the tokens of a line ask of the shell.
pub fn line_action(args: &Vec<String>) -> (r: LineAction)
    ensures
        match asks(text::strings(args@)) {
            LineAction::Connect(_) => r matches LineAction::Connect(uri) && if args@.len() > 1 {
                uri matches Some(u) && u@ == args@[1]@
            } else {
                uri is None
            },
            a => r == a,
        },
{
    if args.len() == 0 {
        return LineAction::Blank;
    }
    let cmd: &str = args[0].as_str();
    assert(text::strings(args@)[0] == cmd@);
    if text::str_eq(cmd, "quit") || text::str_eq(cmd, "exit") || text::str_eq(cmd, "q") {
        LineAction::Quit
    } else if text::str_eq(cmd, "help") || text::str_eq(cmd, "h") || text::str_eq(cmd, "?") {
        LineAction::Help
    } else if text::str_eq(cmd, "leader") {
        LineAction::Leader
    } else if text::str_eq(cmd, "connect") {
        if args.len() > 1 {
            LineAction::Connect(Some(text::owned(args[1].as_str())))
        } else {
            LineAction::Connect(None)
        }
    } else {
        LineAction::Run
    }
}

/// A command for a server. Where it names no table, the session's is meant.
pub enum Command {
    Nothing,
    CreateTable { name: String, regime: Regime },
    /// Select the session's table.
    Use { table: String },
    Put { table: Option<String>, key: String, value: String },
    /// A read at a timestamp; 0 is now.
    Get { table: Option<String>, key: String, read_ts: u64 },
    Delete { table: Option<String>, key: String },
    /// A range, and how many pairs at most; 0 is all. An empty end is that of the table.
    Scan { table: Option<String>, start: String, end: String, limit: u32 },
    Split { key: String },
    Merge { key: String },
}

/// A [`Command`] as values.
pub enum CommandView {
    Nothing,
    CreateTable { name: Seq<char>, regime: Regime },
    Use { table: Seq<char> },
    Put { table: Option<Seq<char>>, key: Seq<char>, value: Seq<char> },
    Get { table: Option<Seq<char>>, key: Seq<char>, read_ts: nat },
    Delete { table: Option<Seq<char>>, key: Seq<char> },
    Scan { table: Option<Seq<char>>, start: Seq<char>, end: Seq<char>, limit: nat },
    Split { key: Seq<char> },
    Merge { key: Seq<char> },
}

impl View for Command {
    type V = CommandView;

    open spec fn view(&self) -> CommandView {
        match self {
            Command::Nothing => CommandView::Nothing,
            Command::CreateTable { name, regime } => CommandView::CreateTable {
                name: name@,
                regime: *regime,
            },
            Command::Use { table } => CommandView::Use { table: table@ },
            Command::Put { table, key, value } => CommandView::Put {
                table: text::opt_text(*table),
                key: key@,
                value: value@,
            },
            Command::Get { table, key, read_ts } => CommandView::Get {
                table: text::opt_text(*table),
                key: key@,
                read_ts: *read_ts as nat,
            },
            Command::Delete { table, key } => CommandView::Delete {
                table: text::opt_text(*table),
                key: key@,
            },
            Command::Scan { table, start, end, limit } => CommandView::Scan {
                table: text::opt_text(*table),
                start: start@,
                end: end@,
                limit: *limit as nat,
            },
            Command::Split { key } => CommandView::Split { key: key@ },
            Command::Merge { key } => CommandView::Merge { key: key@ },
        }
    }
}

/// What a `get` reads: `<key>`, `<key> <read_ts>`, `<table> <key>` or `<table> <key> <read_ts>`.
pub open spec fn parsed_get(a: Seq<Seq<char>>) -> Result<CommandView, Seq<char>> {
    if a.len() == 2 {
        Ok(CommandView::Get { table: None, key: a[1], read_ts: 0 })
    } else {
        let last = a.last();
        match text::parse_unsigned(last, u64::MAX as nat) {
            Some(read_ts) => Ok(
                if a.len() == 3 {
                    CommandView::Get { table: None, key: a[1], read_ts }
                } else {
                    CommandView::Get { table: Some(a[1]), key: a[2], read_ts }
                },
            ),
            None => if a.len() == 3 {
                Ok(CommandView::Get { table: Some(a[1]), key: a[2], read_ts: 0 })
            } else {
                Err("read_ts must be a u64, got "@ + text::quoted_text(last))
            },
        }
    }
}

/// What a `scan` reads: `<table>`, `<start> <end>`, `<start> <end> <limit>`,
/// `<table> <start> <end>` or `<table> <start> <end> <limit>`.
pub open spec fn parsed_scan(a: Seq<Seq<char>>) -> Result<CommandView, Seq<char>> {
    if a.len() == 2 {
        Ok(
            CommandView::Scan {
                table: Some(a[1]),
                start: Seq::empty(),
                end: Seq::empty(),
                limit: 0,
            },
        )
    } else if a.len() == 3 {
        Ok(CommandView::Scan { table: None, start: a[1], end: a[2], limit: 0 })
    } else {
        let last = a.last();
        match text::parse_unsigned(last, u32::MAX as nat) {
            Some(limit) => Ok(
                if a.len() == 4 {
                    CommandView::Scan { table: None, start: a[1], end: a[2], limit }
                } else {
                    CommandView::Scan { table: Some(a[1]), start: a[2], end: a[3], limit }
                },
            ),
            None => if a.len() == 4 {
                Ok(CommandView::Scan { table: Some(a[1]), start: a[2], end: a[3], limit: 0 })
            } else {
                Err("limit must be a u32, got "@ + text::quoted_text(last))
            },
        }
    }
}

/// What a `create table` makes.
pub open spec fn parsed_create(name: Seq<char>, regime: Seq<char>) -> Result<
    CommandView,
    Seq<char>,
> {
    if regime == "cp"@ {
        Ok(CommandView::CreateTable { name, regime: Regime::Cp })
    } else if regime == "ap"@ {
        Ok(CommandView::CreateTable { name, regime: Regime::Ap })
    } else {
        Err("regime must be cp or ap, got "@ + text::quoted_text(regime))
    }
}

/// The command that tokens write, or what is wrong with them.
pub open spec fn parsed(a: Seq<Seq<char>>) -> Result<CommandView, Seq<char>> {
    if a.len() == 0 {
        Ok(CommandView::Nothing)
    } else if a.len() == 4 && a[0] == "create"@ && a[1] == "table"@ {
        parsed_create(a[2], a[3])
    } else if a.len() == 2 && a[0] == "use"@ {
        Ok(CommandView::Use { table: a[1] })
    } else if a.len() == 3 && a[0] == "put"@ {
        Ok(CommandView::Put { table: None, key: a[1], value: a[2] })
    } else if a.len() == 4 && a[0] == "put"@ {
        Ok(CommandView::Put { table: Some(a[1]), key: a[2], value: a[3] })
    } else if 2 <= a.len() <= 4 && a[0] == "get"@ {
        parsed_get(a)
    } else if a.len() == 2 && (a[0] == "del"@ || a[0] == "delete"@) {
        Ok(CommandView::Delete { table: None, key: a[1] })
    } else if a.len() == 3 && (a[0] == "del"@ || a[0] == "delete"@) {
        Ok(CommandView::Delete { table: Some(a[1]), key: a[2] })
    } else if 2 <= a.len() <= 5 && a[0] == "scan"@ {
        parsed_scan(a)
    } else if a.len() == 2 && a[0] == "split"@ {
        Ok(CommandView::Split { key: a[1] })
    } else if a.len() == 2 && a[0] == "merge"@ {
        Ok(CommandView::Merge { key: a[1] })
    } else {
        Err("unknown command "@ + text::quoted_text(a[0]) + " — try 'help'"@)
    }
}

/// A command or a complaint as values.
pub open spec fn command_view(r: Result<Command, String>) -> Result<CommandView, Seq<char>> {
    match r {
        Ok(c) => Ok(c@),
        Err(s) => Err(s@),
    }
}

fn complaint(head: &str, what: &str, tail: &str) -> (r: String)
    ensures
        r@ == head@ + text::quoted_text(what@) + tail@,
{
    let mut s = text::owned(head);
    s.push_str(text::quoted(what).as_str());
    s.push_str(tail);
    s
}

fn got(head: &str, what: &str) -> (r: String)
    ensures
        r@ == head@ + text::quoted_text(what@),
{
    let mut s = text::owned(head);
    s.push_str(text::quoted(what).as_str());
    s
}

fn arg(args: &Vec<String>, i: usize) -> (r: String)
    requires
        i < args@.len(),
    ensures
        r@ == text::strings(args@)[i as int],
{
    text::owned(args[i].as_str())
}

fn parse_get(args: &Vec<String>) -> (r: Result<Command, String>)
    requires
        2 <= args@.len() <= 4,
    ensures
        command_view(r) == parsed_get(text::strings(args@)),
{
    let n: usize = args.len();
    if n == 2 {
        return Ok(Command::Get { table: None, key: arg(args, 1), read_ts: 0 });
    }
    let last: &str = args[n - 1].as_str();
    assert(last@ == text::strings(args@).last());
    match text::parse_u64(last, u64::MAX) {
        Some(read_ts) => if n == 3 {
            Ok(Command::Get { table: None, key: arg(args, 1), read_ts })
        } else {
            Ok(Command::Get { table: Some(arg(args, 1)), key: arg(args, 2), read_ts })
        },
        None => if n == 3 {
            Ok(Command::Get { table: Some(arg(args, 1)), key: arg(args, 2), read_ts: 0 })
        } else {
            Err(got("read_ts must be a u64, got ", last))
        },
    }
}

fn parse_scan(args: &Vec<String>) -> (r: Result<Command, String>)
    requires
        2 <= args@.len() <= 5,
    ensures
        command_view(r) == parsed_scan(text::strings(args@)),
{
    let n: usize = args.len();
    if n == 2 {
        let (start, end) = (String::new(), String::new());
        assert(start@ =~= Seq::<char>::empty());
        assert(end@ =~= Seq::<char>::empty());
        return Ok(Command::Scan { table: Some(arg(args, 1)), start, end, limit: 0 });
    }
    if n == 3 {
        return Ok(
            Command::Scan { table: None, start: arg(args, 1), end: arg(args, 2), limit: 0 },
        );
    }
    let last: &str = args[n - 1].as_str();
    assert(last@ == text::strings(args@).last());
    match text::parse_u64(last, u32::MAX as u64) {
        Some(limit) => if n == 4 {
            Ok(
                Command::Scan {
                    table: None,
                    start: arg(args, 1),
                    end: arg(args, 2),
                    limit: limit as u32,
                },
            )
        } else {
            Ok(
                Command::Scan {
                    table: Some(arg(args, 1)),
                    start: arg(args, 2),
                    end: arg(args, 3),
                    limit: limit as u32,
                },
            )
        },
        None => if n == 4 {
            Ok(
                Command::Scan {
                    table: Some(arg(args, 1)),
                    start: arg(args, 2),
                    end: arg(args, 3),
                    limit: 0,
                },
            )
        } else {
            Err(got("limit must be a u32, got ", last))
        },
    }
}

fn parse_create(name: &str, regime: &str) -> (r: Result<Command, String>)
    ensures
        command_view(r) == parsed_create(name@, regime@),
{
    if text::str_eq(regime, "cp") {
        Ok(Command::CreateTable { name: text::owned(name), regime: Regime::Cp })
    } else if text::str_eq(regime, "ap") {
        Ok(Command::CreateTable { name: text::owned(name), regime: Regime::Ap })
    } else {
        Err(got("regime must be cp or ap, got ", regime))
    }
}

/// Read a command.
pub fn parse_command(args: &Vec<String>) -> (r: Result<Command, String>)
    ensures
        command_view(r) == parsed(text::strings(args@)),
{
    let ghost a = text::strings(args@);
    let n: usize = args.len();
    if n == 0 {
        return Ok(Command::Nothing);
    }
    assert(forall|i: int| 0 <= i < n ==> #[trigger] a[i] == args@[i]@);
    let cmd: &str = args[0].as_str();
    assert(cmd@ == a[0]);
    let del = text::str_eq(cmd, "del") || text::str_eq(cmd, "delete");
    if n == 4 && text::str_eq(cmd, "create") && text::str_eq(args[1].as_str(), "table") {
        parse_create(args[2].as_str(), args[3].as_str())
    } else if n == 2 && text::str_eq(cmd, "use") {
        Ok(Command::Use { table: arg(args, 1) })
    } else if n == 3 && text::str_eq(cmd, "put") {
        Ok(Command::Put { table: None, key: arg(args, 1), value: arg(args, 2) })
    } else if n == 4 && text::str_eq(cmd, "put") {
        Ok(Command::Put { table: Some(arg(args, 1)), key: arg(args, 2), value: arg(args, 3) })
    } else if 2 <= n && n <= 4 && text::str_eq(cmd, "get") {
        parse_get(args)
    } else if n == 2 && del {
        Ok(Command::Delete { table: None, key: arg(args, 1) })
    } else if n == 3 && del {
        Ok(Command::Delete { table: Some(arg(args, 1)), key: arg(args, 2) })
    } else if 2 <= n && n <= 5 && text::str_eq(cmd, "scan") {
        parse_scan(args)
    } else if n == 2 && text::str_eq(cmd, "split") {
        Ok(Command::Split { key: arg(args, 1) })
    } else if n == 2 && text::str_eq(cmd, "merge") {
        Ok(Command::Merge { key: arg(args, 1) })
    } else {
        Err(complaint("unknown command ", cmd, " — try 'help'"))
    }
}

/// The table that a command means: the one it names, else the session's.
pub fn chosen_table(table: &Option<String>, session: &str) -> (r: String)
    ensures
        r@ == match text::opt_text(*table) {
            Some(t) => t,
            None => session@,
        },
{
    match table {
        Some(t) => text::owned(t.as_str()),
        None => text::owned(session),
    }
}

/// What is done about an error.
pub enum Reaction {
    /// Wait for a new leader and try once more; `announce` where that was not said yet.
    Wait { announce: bool },
    /// Say this, and stop.
    Stop(String),
}

/// What is said of an error that ends a command.
pub open spec fn parting(e: ClientErrorView) -> Seq<char> {
    match e {
        ClientErrorView::NoLeader =>
            "still no leader after retrying — is a majority of the cluster up?"@,
        ClientErrorView::Unreachable => "can't reach any arcux server — is the cluster running?"@,
        _ => e.text(),
    }
}

/// What is done about an error of a command's try (the first is number 1): a missing leader is
/// waited for, as long as there are tries left; any other error is reported at once.
pub fn react(e: &ClientError, tries: u32) -> (r: Reaction)
    requires
        1 <= tries <= 40,
    ensures
        if e@ is NoLeader && tries < 40 {
            r == (Reaction::Wait { announce: tries == 1 })
        } else {
            r matches Reaction::Stop(s) && s@ == parting(e@)
        },
{
    match e {
        ClientError::NoLeader => if tries < MAX_TRIES {
            Reaction::Wait { announce: tries == 1 }
        } else {
            Reaction::Stop(
                text::owned("still no leader after retrying — is a majority of the cluster up?"),
            )
        },
        ClientError::Unreachable => Reaction::Stop(
            text::owned("can't reach any arcux server — is the cluster running?"),
        ),
        _ => Reaction::Stop(e.message()),
    }
}

/// Whether the node that requests go to has changed, so that it is worth saying.
pub fn node_changed(now: &Option<String>, last: &Option<String>) -> (r: bool)
    ensures
        r == (now is Some && text::opt_text(*now) != text::opt_text(*last)),
{
    match (now, last) {
        (Some(n), Some(l)) => !text::str_eq(n.as_str(), l.as_str()),
        (Some(_), None) => true,
        _ => false,
    }
}

/// How the shell connects.
#[derive(Clone, Copy, Debug, PartialEq, Eq, Structural)]
pub enum Connection {
    /// To all of the endpoints, following the leader.
    Cluster,
    /// Through the placement driver.
    Routed,
    /// To the one endpoint.
    Direct,
}

/// How the shell connects: more than one endpoint is a cluster; one is direct, unless there is a
/// placement driver.
pub fn connection(endpoints: usize, has_pd: bool) -> (r: Connection)
    ensures
        r == if endpoints > 1 {
            Connection::Cluster
        } else if has_pd {
            Connection::Routed
        } else {
            Connection::Direct
        },
{
    if endpoints > 1 {
        Connection::Cluster
    } else if has_pd {
        Connection::Routed
    } else {
        Connection::Direct
    }
}

/// Whether a text is a number up to a limit.
pub open spec fn numeric(s: Seq<char>, max: nat) -> bool {
    text::parse_unsigned(s, max) is Some
}

/// Writes and deletes: without a table they are for the session's, with one for that.
pub proof fn law_write_commands(t: Seq<char>, k: Seq<char>, v: Seq<char>)
    ensures
        parsed(seq!["put"@, k, v]) == Ok::<CommandView, Seq<char>>(
            CommandView::Put { table: None, key: k, value: v },
        ),
        parsed(seq!["put"@, t, k, v]) == Ok::<CommandView, Seq<char>>(
            CommandView::Put { table: Some(t), key: k, value: v },
        ),
        parsed(seq!["del"@, k]) == Ok::<CommandView, Seq<char>>(
            CommandView::Delete { table: None, key: k },
        ),
        parsed(seq!["del"@, t, k]) == Ok::<CommandView, Seq<char>>(
            CommandView::Delete { table: Some(t), key: k },
        ),
        parsed(seq!["delete"@, k]) == parsed(seq!["del"@, k]),
        parsed(seq!["delete"@, t, k]) == parsed(seq!["del"@, t, k]),
{
    lemma_words();
}

/// Reads: a number at the end is the timestamp to read at; where there are two words and the last
/// is no number, the first names a table.
pub proof fn law_get_commands(t: Seq<char>, k: Seq<char>, n: u64, x: Seq<char>)
    ensures
        parsed(seq!["get"@, k]) == Ok::<CommandView, Seq<char>>(
            CommandView::Get { table: None, key: k, read_ts: 0 },
        ),
        parsed(seq!["get"@, k, text::decimal(n as nat)]) == Ok::<CommandView, Seq<char>>(
            CommandView::Get { table: None, key: k, read_ts: n as nat },
        ),
        !numeric(k, u64::MAX as nat) ==> parsed(seq!["get"@, t, k]) == Ok::<CommandView, Seq<char>>(
            CommandView::Get { table: Some(t), key: k, read_ts: 0 },
        ),
        parsed(seq!["get"@, t, k, text::decimal(n as nat)]) == Ok::<CommandView, Seq<char>>(
            CommandView::Get { table: Some(t), key: k, read_ts: n as nat },
        ),
        !numeric(x, u64::MAX as nat) ==> parsed(seq!["get"@, t, k, x]) is Err,
{
    lemma_words();
    text::law_decimal_roundtrip(n as nat, u64::MAX as nat);
}

/// Range reads: one word is a table, two are a range, and a number behind a range is the most
/// pairs to give; where there are three words and the last is no number, the first names a table.
pub proof fn law_scan_commands(
    t: Seq<char>,
    a: Seq<char>,
    b: Seq<char>,
    n: u32,
    x: Seq<char>,
)
    ensures
        parsed(seq!["scan"@, t]) == Ok::<CommandView, Seq<char>>(
            CommandView::Scan {
                table: Some(t),
                start: Seq::empty(),
                end: Seq::empty(),
                limit: 0,
            },
        ),
        parsed(seq!["scan"@, a, b]) == Ok::<CommandView, Seq<char>>(
            CommandView::Scan { table: None, start: a, end: b, limit: 0 },
        ),
        parsed(seq!["scan"@, a, b, text::decimal(n as nat)]) == Ok::<CommandView, Seq<char>>(
            CommandView::Scan { table: None, start: a, end: b, limit: n as nat },
        ),
        !numeric(b, u32::MAX as nat) ==> parsed(seq!["scan"@, t, a, b]) == Ok::<
            CommandView,
            Seq<char>,
        >(CommandView::Scan { table: Some(t), start: a, end: b, limit: 0 }),
        parsed(seq!["scan"@, t, a, b, text::decimal(n as nat)]) == Ok::<CommandView, Seq<char>>(
            CommandView::Scan { table: Some(t), start: a, end: b, limit: n as nat },
        ),
        !numeric(x, u32::MAX as nat) ==> parsed(seq!["scan"@, t, a, b, x]) is Err,
{
    lemma_words();
    text::law_decimal_roundtrip(n as nat, u32::MAX as nat);
}

/// Tables and regions: a table is made with the regime that is named, and only with one of the
/// two; the session's table is selected; and a region is split or merged at a key.
pub proof fn law_other_commands(t: Seq<char>, k: Seq<char>)
    ensures
        parsed(Seq::empty()) == Ok::<CommandView, Seq<char>>(CommandView::Nothing),
        parsed(seq!["create"@, "table"@, t, "cp"@]) == Ok::<CommandView, Seq<char>>(
            CommandView::CreateTable { name: t, regime: Regime::Cp },
        ),
        parsed(seq!["create"@, "table"@, t, "ap"@]) == Ok::<CommandView, Seq<char>>(
            CommandView::CreateTable { name: t, regime: Regime::Ap },
        ),
        k != "cp"@ && k != "ap"@ ==> parsed(seq!["create"@, "table"@, t, k]) is Err,
        parsed(seq!["use"@, t]) == Ok::<CommandView, Seq<char>>(CommandView::Use { table: t }),
        parsed(seq!["split"@, k]) == Ok::<CommandView, Seq<char>>(CommandView::Split { key: k }),
        parsed(seq!["merge"@, k]) == Ok::<CommandView, Seq<char>>(CommandView::Merge { key: k }),
{
    lemma_words();
}

/// The words of the commands differ.
proof fn lemma_words()
    ensures
        "put"@ != "create"@,
        "put"@ != "get"@,
        "put"@ != "use"@,
        "get"@ != "create"@,
        "get"@ != "use"@,
        "del"@ != "use"@,
        "del"@ != "put"@,
        "del"@ != "get"@,
        "delete"@ != "use"@,
        "delete"@ != "put"@,
        "delete"@ != "get"@,
        "scan"@ != "create"@,
        "scan"@ != "use"@,
        "scan"@ != "put"@,
        "scan"@ != "get"@,
        "scan"@ != "del"@,
        "scan"@ != "delete"@,
        "split"@ != "use"@,
        "split"@ != "get"@,
        "split"@ != "del"@,
        "split"@ != "delete"@,
        "split"@ != "scan"@,
        "merge"@ != "use"@,
        "merge"@ != "get"@,
        "merge"@ != "del"@,
        "merge"@ != "delete"@,
        "merge"@ != "scan"@,
        "merge"@ != "split"@,
        "cp"@ != "ap"@,
{
    reveal_strlit("put");
    reveal_strlit("create");
    reveal_strlit("get");
    reveal_strlit("use");
    reveal_strlit("del");
    reveal_strlit("delete");
    reveal_strlit("scan");
    reveal_strlit("split");
    reveal_strlit("merge");
    reveal_strlit("cp");
    reveal_strlit("ap");
    assert("put"@[0] == 'p' && "get"@[0] == 'g' && "use"@[0] == 'u' && "del"@[0] == 'd');
    assert("split"@[0] == 's' && "merge"@[0] == 'm' && "cp"@[0] == 'c' && "ap"@[0] == 'a');
    assert("delete"@[0] == 'd' && "create"@[0] == 'c');
    assert("split"@[1] == 'p' && "scan"@[1] == 'c' && "scan"@[0] == 's');
}

/// Whether a part of an address list is an address: there is more to it than white space.
pub open spec fn addressed() -> spec_fn(Seq<char>) -> bool {
    |s: Seq<char>| s.len() > 0
}

/// The endpoints of a local cluster have one port after another; those of a list are its parts
/// between the commas, without the white space around them, in order and without empty ones. A
/// number of nodes goes before a list.
pub proof fn law_endpoints(
    n: u64,
    base: u64,
    addr: Seq<char>,
    other: Option<Seq<char>>,
    port: Option<Seq<char>>,
)
    ensures
        ({
            let e = endpoints(
                Some(text::decimal(n as nat)),
                Some(text::decimal(base as nat)),
                other,
            );
            &&& e.len() == n
            &&& forall|i: int|
                0 <= i < e.len() ==> #[trigger] e[i] == "http://127.0.0.1:"@ + text::decimal(
                    (base + 1 + i) as nat,
                )
        }),
        endpoints(None, port, Some(addr)) == text::parts(addr, ',').map_values(
            |p: Seq<char>| text::trimmed(p),
        ).filter(addressed()),
{
    text::law_decimal_roundtrip(n as nat, u64::MAX as nat);
    text::law_decimal_roundtrip(base as nat, u64::MAX as nat);
    lemma_listed(text::parts(addr, ','));
}

proof fn lemma_listed(ps: Seq<Seq<char>>)
    ensures
        listed(ps) == ps.map_values(|p: Seq<char>| text::trimmed(p)).filter(addressed()),
    decreases ps.len(),
{
    reveal(Seq::filter);
    let f = |p: Seq<char>| text::trimmed(p);
    if ps.len() > 0 {
        lemma_listed(ps.drop_last());
        assert(ps.map_values(f).drop_last() =~= ps.drop_last().map_values(f));
    } else {
        assert(ps.map_values(f) =~= Seq::<Seq<char>>::empty());
    }
}

/// What is text is shown as it is.
pub proof fn law_shown(s: Seq<char>)
    ensures
        shown(vstd::utf8::encode_utf8(s)) == s,
{
    text::lemma_text_roundtrip(s);
}

} // verus!
