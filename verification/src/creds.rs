//! The credential store: the in-memory image of the append-only
//! `username:password` file the authentication flow consults.
//!
//! The surrounding program reads the file and hands its text to
//! [`CredStore::parse`]; registration appends a record and returns the one
//! line the program must append to the file, so the image and the file
//! advance together.

use vstd::prelude::*;

use crate::text::first_index_of;
use crate::text::lemma_first_index_of;
use crate::text::split_on;
use crate::text::str_eq;
use crate::text::trimmed;

verus! {

/// One `username:password` record, in the order the file holds them.
pub struct CredRecord {
    pub name: String,
    pub pwd: String,
}

impl View for CredRecord {
    type V = (Seq<char>, Seq<char>);

    open spec fn view(&self) -> (Seq<char>, Seq<char>) {
        (self.name@, self.pwd@)
    }
}

impl DeepView for CredRecord {
    type V = (Seq<char>, Seq<char>);

    open spec fn deep_view(&self) -> (Seq<char>, Seq<char>) {
        self.view()
    }
}

/// The first record bearing `name`, if any. Lookups scan the store in file
/// order and stop at the first hit, so later records under the same name
/// are shadowed.
pub open spec fn first_match(
    s: Seq<(Seq<char>, Seq<char>)>,
    name: Seq<char>,
) -> Option<(Seq<char>, Seq<char>)>
    decreases s.len(),
{
    if s.len() == 0 {
        None
    } else if s[0].0 == name {
        Some(s[0])
    } else {
        first_match(s.drop_first(), name)
    }
}

/// A name the service treats as registered: non-empty and borne by some
/// record. The empty name never counts, matching a lookup that answers a
/// miss and an empty-named record with the same empty pair.
pub open spec fn known(s: Seq<(Seq<char>, Seq<char>)>, name: Seq<char>) -> bool {
    name.len() > 0 && first_match(s, name) is Some
}

proof fn lemma_first_match_at(s: Seq<(Seq<char>, Seq<char>)>, name: Seq<char>, i: int)
    requires
        0 <= i < s.len(),
        s[i].0 == name,
        forall|j: int| 0 <= j < i ==> s[j].0 != name,
    ensures
        first_match(s, name) == Some(s[i]),
    decreases i,
{
    if i > 0 {
        lemma_first_match_at(s.drop_first(), name, i - 1);
    }
}

proof fn lemma_first_match_none(s: Seq<(Seq<char>, Seq<char>)>, name: Seq<char>)
    requires
        forall|j: int| 0 <= j < s.len() ==> s[j].0 != name,
    ensures
        first_match(s, name) is None,
    decreases s.len(),
{
    if s.len() > 0 {
        lemma_first_match_none(s.drop_first(), name);
    }
}

/// A found record bears the name it was found under.
pub proof fn lemma_first_match_key(s: Seq<(Seq<char>, Seq<char>)>, n: Seq<char>)
    ensures
        first_match(s, n) matches Some(p) ==> p.0 == n,
    decreases s.len(),
{
    if s.len() > 0 && s[0].0 != n {
        lemma_first_match_key(s.drop_first(), n);
    }
}

/// Appending a record leaves earlier lookups untouched, and serves lookups
/// of its own name that previously missed.
pub proof fn lemma_first_match_push(
    s: Seq<(Seq<char>, Seq<char>)>,
    rec: (Seq<char>, Seq<char>),
    n: Seq<char>,
)
    ensures
        first_match(s.push(rec), n) == match first_match(s, n) {
            Some(p) => Some(p),
            None => if rec.0 == n {
                Some(rec)
            } else {
                None
            },
        },
    decreases s.len(),
{
    let whole = s.push(rec);
    if s.len() == 0 {
        assert(whole[0] == rec);
        assert(whole.drop_first() =~= Seq::<(Seq<char>, Seq<char>)>::empty());
    } else {
        assert(whole[0] == s[0]);
        assert(whole.drop_first() =~= s.drop_first().push(rec));
        if s[0].0 != n {
            lemma_first_match_push(s.drop_first(), rec, n);
        }
    }
}

/// The line that registration appends to the store file.
pub open spec fn record_line(name: Seq<char>, pwd: Seq<char>) -> Seq<char> {
    name + ":"@ + pwd + "\n"@
}

/// One line of the store file as a record: the text before the first colon
/// is the name, the text after it, trimmed, is the password; a line
/// without a colon carries no record.
pub open spec fn line_record(l: Seq<char>) -> Option<(Seq<char>, Seq<char>)> {
    match first_index_of(l, ':') {
        None => None,
        Some(i) => Some((l.subrange(0, i), trimmed(l.subrange(i + 1, l.len() as int)))),
    }
}

/// The records carried by a sequence of lines, in order.
pub open spec fn parse_records(lines: Seq<Seq<char>>) -> Seq<(Seq<char>, Seq<char>)>
    decreases lines.len(),
{
    if lines.len() == 0 {
        Seq::empty()
    } else {
        match line_record(lines[0]) {
            Some(r) => seq![r] + parse_records(lines.drop_first()),
            None => parse_records(lines.drop_first()),
        }
    }
}

/// A line with its trailing carriage return removed, if it has one.
pub open spec fn strip_cr(l: Seq<char>) -> Seq<char> {
    if l.len() > 0 && l[l.len() - 1] == '\r' {
        l.drop_last()
    } else {
        l
    }
}

/// The lines of a text, as `str::lines` yields them: the pieces between
/// newlines, each piece that a newline ended stripped of a trailing
/// carriage return, and no final empty piece after a trailing newline.
pub open spec fn spec_lines(t: Seq<char>) -> Seq<Seq<char>> {
    if t.len() == 0 {
        Seq::empty()
    } else {
        let segs = split_on(t, '\n');
        if t[t.len() - 1] == '\n' {
            segs.drop_last().map_values(|l: Seq<char>| strip_cr(l))
        } else {
            segs.drop_last().map_values(|l: Seq<char>| strip_cr(l)).push(segs.last())
        }
    }
}

/// The records a store file text carries.
pub open spec fn parse_store(t: Seq<char>) -> Seq<(Seq<char>, Seq<char>)> {
    parse_records(spec_lines(t))
}

/// The in-memory image of the credential store file.
pub struct CredStore {
    records: Vec<CredRecord>,
}

impl View for CredStore {
    type V = Seq<(Seq<char>, Seq<char>)>;

    closed spec fn view(&self) -> Seq<(Seq<char>, Seq<char>)> {
        self.records.deep_view()
    }
}

impl CredStore {
    pub fn new() -> (s: CredStore)
        ensures
            s@ == Seq::<(Seq<char>, Seq<char>)>::empty(),
    {
        let s = CredStore { records: Vec::new() };
        proof {
            assert(s@ =~= Seq::<(Seq<char>, Seq<char>)>::empty());
        }
        s
    }

    /// The lookup the authentication flow performs: the first record
    /// bearing `username`, or a pair of empty strings when there is none.
    pub fn find_user_login(&self, username: &str) -> (r: (String, String))
        ensures
            match first_match(self@, username@) {
                Some(p) => r.0@ == p.0 && r.1@ == p.1,
                None => r.0@.len() == 0 && r.1@.len() == 0,
            },
    {
        let n = self.records.len();
        let mut i: usize = 0;
        while i < n
            invariant
                i <= n,
                n == self.records.len(),
                forall|j: int| 0 <= j < i ==> self.records.deep_view()[j].0 != username@,
            decreases n - i,
        {
            if str_eq(self.records[i].name.as_str(), username) {
                proof {
                    lemma_first_match_at(self.records.deep_view(), username@, i as int);
                }
                return (self.records[i].name.clone(), self.records[i].pwd.clone());
            }
            i = i + 1;
        }
        proof {
            lemma_first_match_none(self.records.deep_view(), username@);
        }
        (String::new(), String::new())
    }

    /// Appends a record and returns the `username:password` line the
    /// caller must append to the store file.
    pub fn register(&mut self, name: &str, pwd: &str) -> (line: String)
        ensures
            final(self)@ == old(self)@.push((name@, pwd@)),
            line@ == record_line(name@, pwd@),
    {
        let rec = CredRecord { name: String::from_str(name), pwd: String::from_str(pwd) };
        self.records.push(rec);
        proof {
            assert(self@ =~= old(self)@.push((name@, pwd@)));
        }
        let mut line = String::from_str(name);
        line.append(":");
        line.append(pwd);
        line.append("\n");
        line
    }

    /// Builds the store image from the store file's text.
    pub fn parse(t: &str) -> (s: CredStore)
        ensures
            s@ == parse_store(t@),
    {
        let lines = lines_of(t);
        let nl = lines.len();
        let mut records: Vec<CredRecord> = Vec::new();
        let mut i: usize = 0;
        while i < nl
            invariant
                i <= nl,
                nl == lines@.len(),
                records.deep_view() == parse_records(lines.deep_view().subrange(0, i as int)),
            decreases nl - i,
        {
            let ghost prefix = lines.deep_view().subrange(0, i as int);
            let ghost old_deep = records.deep_view();
            let line: &String = &lines[i];
            proof {
                assert(lines.deep_view()[i as int] == line@);
                lemma_first_index_of(line@, ':');
            }
            match crate::text::find_char(line.as_str(), ':') {
                Some(k) => {
                    let len = line.as_str().unicode_len();
                    let name = line.as_str().substring_char(0, k);
                    let pwd = crate::text::trim(line.as_str().substring_char(k + 1, len));
                    records.push(
                        CredRecord { name: String::from_str(name), pwd: String::from_str(pwd) },
                    );
                    proof {
                        assert(records.deep_view() =~= old_deep.push((name@, pwd@)));
                    }
                }
                None => {},
            }
            proof {
                let next = lines.deep_view().subrange(0, i + 1 as int);
                lemma_parse_records_snoc(prefix, line@);
                assert(next =~= prefix.push(line@));
                assert(records.deep_view() =~= parse_records(next));
            }
            i = i + 1;
        }
        proof {
            assert(lines.deep_view().subrange(0, nl as int) =~= lines.deep_view());
        }
        CredStore { records }
    }
}

/// Records of lines grow one line at a time: parsing `lines.push(l)` parses
/// `lines` and then `l`.
proof fn lemma_parse_records_snoc(lines: Seq<Seq<char>>, l: Seq<char>)
    ensures
        parse_records(lines.push(l)) == match line_record(l) {
            Some(r) => parse_records(lines).push(r),
            None => parse_records(lines),
        },
    decreases lines.len(),
{
    let whole = lines.push(l);
    assert(whole.len() == lines.len() + 1);
    if lines.len() == 0 {
        assert(whole[0] == l);
        assert(whole.drop_first() =~= Seq::<Seq<char>>::empty());
        assert(parse_records(whole.drop_first()) =~= Seq::<(Seq<char>, Seq<char>)>::empty());
        match line_record(l) {
            Some(r) => {
                assert(parse_records(whole) == seq![r] + parse_records(whole.drop_first()));
                assert(seq![r] + parse_records(whole.drop_first()) =~= parse_records(
                    lines,
                ).push(r));
            },
            None => {
                assert(parse_records(whole) == parse_records(whole.drop_first()));
                assert(parse_records(lines) =~= Seq::<(Seq<char>, Seq<char>)>::empty());
            },
        }
    } else {
        assert(whole[0] == lines[0]);
        assert(whole.drop_first() =~= lines.drop_first().push(l));
        lemma_parse_records_snoc(lines.drop_first(), l);
        match line_record(lines[0]) {
            Some(r0) => {
                assert(parse_records(whole) == seq![r0] + parse_records(whole.drop_first()));
                assert(parse_records(lines) == seq![r0] + parse_records(lines.drop_first()));
                match line_record(l) {
                    Some(r) => {
                        assert(parse_records(whole.drop_first()) == parse_records(
                            lines.drop_first(),
                        ).push(r));
                        assert(seq![r0] + parse_records(lines.drop_first()).push(r) =~= (seq![r0]
                            + parse_records(lines.drop_first())).push(r));
                    },
                    None => {
                        assert(parse_records(whole.drop_first()) == parse_records(
                            lines.drop_first(),
                        ));
                    },
                }
            },
            None => {
                assert(parse_records(whole) == parse_records(whole.drop_first()));
                assert(parse_records(lines) == parse_records(lines.drop_first()));
            },
        }
    }
}

/// Cutting one line off the front: when the first newline of `s` stands at
/// `k`, the lines of `s` are the stripped piece before it and then the
/// lines of what follows it.
proof fn lemma_lines_step(s: Seq<char>, k: int)
    requires
        0 <= k < s.len(),
        s[k] == '\n',
        forall|j: int| 0 <= j < k ==> s[j] != '\n',
    ensures
        spec_lines(s) == seq![strip_cr(s.subrange(0, k))] + spec_lines(
            s.subrange(k + 1, s.len() as int),
        ),
{
    lemma_first_index_of(s, '\n');
    assert(first_index_of(s, '\n') == Some(k)) by {
        match first_index_of(s, '\n') {
            Some(i) => {
                if i < k {
                } else if i > k {
                }
            },
            None => {},
        }
    }
    let head = s.subrange(0, k);
    let rest = s.subrange(k + 1, s.len() as int);
    let segs = split_on(s, '\n');
    assert(segs == seq![head] + split_on(rest, '\n'));
    let srest = split_on(rest, '\n');
    assert(srest.len() >= 1) by {
        lemma_split_on_len(rest);
    }
    let f = |l: Seq<char>| strip_cr(l);
    if k + 1 == s.len() {
        // the newline is the last character: `rest` is empty and carries no
        // further lines, and `s` ends with a newline
        assert(rest.len() == 0);
        assert(srest =~= seq![rest]);
        assert(segs.drop_last() =~= seq![head]);
        assert(seq![head].map_values(f) =~= seq![strip_cr(head)]);
        assert(spec_lines(rest) =~= Seq::<Seq<char>>::empty());
        assert(spec_lines(s) =~= seq![strip_cr(head)] + spec_lines(rest));
    } else {
        assert(rest.len() > 0);
        assert(rest[rest.len() - 1] == s[s.len() - 1]);
        assert(segs.drop_last() =~= seq![head] + srest.drop_last());
        assert((seq![head] + srest.drop_last()).map_values(f) =~= seq![strip_cr(head)]
            + srest.drop_last().map_values(f));
        if s[s.len() - 1] == '\n' {
            assert(spec_lines(s) =~= seq![strip_cr(head)] + spec_lines(rest));
        } else {
            assert(segs.last() == srest.last());
            assert((seq![strip_cr(head)] + srest.drop_last().map_values(f)).push(srest.last())
                =~= seq![strip_cr(head)] + srest.drop_last().map_values(f).push(srest.last()));
            assert(spec_lines(s) =~= seq![strip_cr(head)] + spec_lines(rest));
        }
    }
}

proof fn lemma_split_on_len(s: Seq<char>)
    ensures
        split_on(s, '\n').len() >= 1,
{
    lemma_first_index_of(s, '\n');
}

/// A text without a newline is one line when non-empty, and none at all
/// when empty.
proof fn lemma_lines_flat(s: Seq<char>)
    requires
        forall|j: int| 0 <= j < s.len() ==> s[j] != '\n',
    ensures
        spec_lines(s) == if s.len() == 0 {
            Seq::<Seq<char>>::empty()
        } else {
            seq![s]
        },
{
    lemma_first_index_of(s, '\n');
    if s.len() > 0 {
        let segs = split_on(s, '\n');
        assert(segs =~= seq![s]);
        assert(segs.drop_last() =~= Seq::<Seq<char>>::empty());
        assert(segs.drop_last().map_values(|l: Seq<char>| strip_cr(l)).push(s) =~= seq![s]);
    }
}

/// The lines of a store file's text, as `str::lines` yields them.
pub fn lines_of(t: &str) -> (r: Vec<String>)
    ensures
        r.deep_view() == spec_lines(t@),
{
    let n = t.unicode_len();
    let mut r: Vec<String> = Vec::new();
    let mut pos: usize = 0;
    proof {
        assert(t@.subrange(0, n as int) =~= t@);
        assert(r.deep_view() + spec_lines(t@) =~= spec_lines(t@));
    }
    loop
        invariant
            pos <= n,
            n == t@.len(),
            spec_lines(t@) == r.deep_view() + spec_lines(t@.subrange(pos as int, n as int)),
        ensures
            pos <= n,
            n == t@.len(),
            spec_lines(t@) == r.deep_view() + spec_lines(t@.subrange(pos as int, n as int)),
            forall|j: int| pos <= j < n ==> t@[j] != '\n',
        decreases n - pos,
    {
        proof {
            assert(t@.subrange(0, n as int) =~= t@);
        }
        let ghost old_deep = r.deep_view();
        let sub = t.substring_char(pos, n);
        match crate::text::find_char(sub, '\n') {
            None => {
                proof {
                    lemma_first_index_of(sub@, '\n');
                    assert(forall|j: int| pos <= j < n ==> t@[j] == sub@[j - pos]);
                }
                break;
            },
            Some(k) => {
                proof {
                    lemma_first_index_of(sub@, '\n');
                    lemma_lines_step(sub@, k as int);
                }
                let piece = if k > 0 && sub.get_char(k - 1) == '\r' {
                    sub.substring_char(0, k - 1)
                } else {
                    sub.substring_char(0, k)
                };
                proof {
                    assert(piece@ =~= strip_cr(sub@.subrange(0, k as int)));
                }
                r.push(String::from_str(piece));
                proof {
                    assert(r.deep_view() =~= old_deep.push(piece@));
                    assert(sub@.subrange(k + 1, sub@.len() as int) =~= t@.subrange(
                        pos + k + 1,
                        n as int,
                    ));
                    assert(old_deep + (seq![piece@] + spec_lines(
                        t@.subrange(pos + k + 1, n as int),
                    )) =~= r.deep_view() + spec_lines(t@.subrange(pos + k + 1, n as int)));
                }
                pos = pos + k + 1;
            },
        }
    }
    proof {
        let tail = t@.subrange(pos as int, n as int);
        lemma_lines_flat(tail);
    }
    if pos < n {
        let ghost old_deep = r.deep_view();
        let last = t.substring_char(pos, n);
        r.push(String::from_str(last));
        proof {
            assert(r.deep_view() =~= old_deep.push(last@));
            assert(old_deep + seq![last@] =~= r.deep_view());
            assert(r.deep_view() + Seq::<Seq<char>>::empty() =~= r.deep_view());
            assert(spec_lines(t@) =~= r.deep_view());
        }
    } else {
        proof {
            assert(t@.subrange(pos as int, n as int).len() == 0);
            assert(r.deep_view() + Seq::<Seq<char>>::empty() =~= r.deep_view());
        }
    }
    r
}

/// Lines cut at a newline boundary: a text that ends on a newline
/// contributes its lines wholly, whatever follows it.
proof fn lemma_lines_concat(a: Seq<char>, b: Seq<char>)
    requires
        a.len() == 0 || a[a.len() - 1] == '\n',
    ensures
        spec_lines(a + b) == spec_lines(a) + spec_lines(b),
    decreases a.len(),
{
    if a.len() == 0 {
        assert(a + b =~= b);
        assert(spec_lines(a) + spec_lines(b) =~= spec_lines(b));
    } else {
        lemma_first_index_of(a, '\n');
        match first_index_of(a, '\n') {
            None => {
                assert(a[a.len() - 1] != '\n');
            },
            Some(k) => {
                lemma_lines_step(a, k);
                assert(forall|j: int| 0 <= j < k ==> (a + b)[j] == a[j]);
                assert((a + b)[k] == '\n');
                lemma_lines_step(a + b, k);
                let head = strip_cr(a.subrange(0, k));
                let resta = a.subrange(k + 1, a.len() as int);
                assert((a + b).subrange(0, k) =~= a.subrange(0, k));
                assert((a + b).subrange(k + 1, (a + b).len() as int) =~= resta + b);
                assert(resta.len() == 0 || resta[resta.len() - 1] == '\n');
                lemma_lines_concat(resta, b);
                assert(seq![head] + (spec_lines(resta) + spec_lines(b)) =~= (seq![head]
                    + spec_lines(resta)) + spec_lines(b));
            },
        }
    }
}

/// The store file serializes registrations: appending the record line of
/// a line-safe name and password to any text that is empty or
/// newline-closed extends the parsed store by exactly that record — what
/// one registration wrote, every later read of the file sees.
pub proof fn lemma_store_append(t: Seq<char>, name: Seq<char>, pwd: Seq<char>)
    requires
        t.len() == 0 || t[t.len() - 1] == '\n',
        forall|i: int| 0 <= i < name.len() ==> name[i] != ':' && name[i] != '\n',
        forall|i: int| 0 <= i < pwd.len() ==> pwd[i] != '\n',
        pwd.len() == 0 || pwd[pwd.len() - 1] != '\r',
        trimmed(pwd) == pwd,
    ensures
        parse_store(t + record_line(name, pwd)) == parse_store(t).push((name, pwd)),
{
    reveal_strlit(":");
    reveal_strlit("\n");
    let rl = record_line(name, pwd);
    let head = name + ":"@ + pwd;
    assert(rl.len() == head.len() + 1);
    assert(forall|j: int| 0 <= j < head.len() ==> rl[j] == head[j]);
    assert(head[name.len() as int] == ':');
    assert(forall|j: int| 0 <= j < name.len() ==> head[j] == name[j]);
    assert(forall|j: int| name.len() + 1 <= j < head.len() ==> head[j] == pwd[j - name.len() - 1]);
    assert(forall|j: int| 0 <= j < head.len() ==> head[j] != '\n');
    assert(rl[head.len() as int] == '\n');

    lemma_lines_concat(t, rl);

    // the record line is one line: its head, carriage-return free at the
    // end, closed by the final newline
    lemma_lines_step(rl, head.len() as int);
    assert(rl.subrange(head.len() as int + 1, rl.len() as int) =~= Seq::<char>::empty());
    assert(spec_lines(Seq::<char>::empty()) =~= Seq::<Seq<char>>::empty());
    assert(rl.subrange(0, head.len() as int) =~= head);
    assert(head.len() > 0);
    assert(head[head.len() - 1] != '\r');
    assert(strip_cr(head) == head);
    assert(spec_lines(rl) =~= seq![head]);
    assert(spec_lines(t) + seq![head] =~= spec_lines(t).push(head));

    // the head parses back to exactly the registered record
    lemma_first_index_of(head, ':');
    match first_index_of(head, ':') {
        None => {
            assert(head[name.len() as int] == ':');
        },
        Some(i) => {
            if i < name.len() {
                assert(head[i] == name[i]);
            } else if i > name.len() {
                assert(head[name.len() as int] == ':');
            }
            assert(i == name.len());
            assert(head.subrange(0, i) =~= name);
            assert(head.subrange(i + 1, head.len() as int) =~= pwd);
        },
    }
    lemma_parse_records_snoc(spec_lines(t), head);
    assert(parse_store(t + rl) =~= parse_store(t).push((name, pwd)));
}

} // verus!
