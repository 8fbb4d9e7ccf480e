//! Turning HR commands into an organization table (department to employees).
use vstd::prelude::*;
use crate::shell::strings_view;

verus! {

broadcast use vstd::string::group_string_axioms;

/// The named groups that `regex::Regex::new(pattern)` captures at the first match in `text`:
/// `None` when the pattern does not compile or does not match, otherwise the text of each
/// group in `names` (`None` for a group that took no part in the match). It names the whole
/// compile, match and read, as one operation of three regex functions, not any one of them.
pub uninterp spec fn regex_named_captures(
    pattern: Seq<char>,
    text: Seq<char>,
    names: Seq<Seq<char>>,
) -> Option<Seq<Option<Seq<char>>>>;

/// The view of optional strings.
pub open spec fn opt_strings_view(v: Seq<Option<String>>) -> Seq<Option<Seq<char>>> {
    v.map_values(|o: Option<String>| match o {
        Some(s) => Some(s@),
        None => None,
    })
}

/// Compiles `pattern` with `regex::Regex::new` and, at the first match of `Regex::captures` in
/// `text`, reads each named group with `Captures::name`. The contract claims only that the
/// result, `None` or the groups read, is `regex_named_captures` of the pattern, the text and
/// the names: the same arguments give the same result. What the groups hold is not stated.
#[verifier::external_body]
fn regex_captures(pattern: &str, text: &str, names: &Vec<String>) -> (r: Option<Vec<Option<String>>>)
    ensures
        match r {
            Some(v) => regex_named_captures(pattern@, text@, strings_view(names@)) == Some(
                opt_strings_view(v@),
            ),
            None => regex_named_captures(pattern@, text@, strings_view(names@)) is None,
        },
{
    let re = regex::Regex::new(pattern).ok()?;
    let caps = re.captures(text)?;
    Some(names.iter().map(|n| caps.name(n).map(|m| m.as_str().to_string())).collect())
}

/// An HR command.
#[derive(Debug)]
pub enum HrCommand {
    /// `Add {person} to {department}`.
    Add { person: String, dept: String },
    /// `Remove {person} from {department}`.
    Remove { person: String, dept: String },
    /// `Move {person} from {department} to {department}`.
    Move { person: String, from: String, to: String },
    /// Anything else.
    Ignored,
}

/// The pattern of an `Add` command.
pub open spec fn add_pattern() -> Seq<char> {
    "^Add (?<person>[\\w-]+) to (?<dept>[\\w-]+)$"@
}

/// The pattern of a `Remove` command.
pub open spec fn remove_pattern() -> Seq<char> {
    "^Remove (?<person>[\\w-]+) from (?<dept>[\\w-]+)$"@
}

/// The pattern of a `Move` command.
pub open spec fn move_pattern() -> Seq<char> {
    "^Move (?<person>[\\w-]+) from (?<from_dept>[\\w-]+) to (?<to_dept>[\\w-]+)$"@
}

/// The group names `person`, `dept`.
pub open spec fn two_names() -> Seq<Seq<char>> {
    seq!["person"@, "dept"@]
}

/// The group names `person`, `from_dept`, `to_dept`.
pub open spec fn three_names() -> Seq<Seq<char>> {
    seq!["person"@, "from_dept"@, "to_dept"@]
}

/// A command in plain values: `0` add, `1` remove, `2` move, `3` ignored; then person,
/// department and target department.
pub type CommandView = (nat, Seq<char>, Seq<char>, Seq<char>);

/// The view of a parsed command.
pub open spec fn command_view(c: HrCommand) -> CommandView {
    match c {
        HrCommand::Add { person, dept } => (0, person@, dept@, Seq::empty()),
        HrCommand::Remove { person, dept } => (1, person@, dept@, Seq::empty()),
        HrCommand::Move { person, from, to } => (2, person@, from@, to@),
        HrCommand::Ignored => (3, Seq::empty(), Seq::empty(), Seq::empty()),
    }
}

/// Two captured groups that both took part in the match.
pub open spec fn two_groups(r: Option<Seq<Option<Seq<char>>>>) -> bool {
    r matches Some(g) && g.len() == 2 && g[0] is Some && g[1] is Some
}

/// Three captured groups that all took part in the match.
pub open spec fn three_groups(r: Option<Seq<Option<Seq<char>>>>) -> bool {
    r matches Some(g) && g.len() == 3 && g[0] is Some && g[1] is Some && g[2] is Some
}

/// The command read from the captures of the `Add`, `Remove` and `Move` patterns: the first
/// pattern that matches decides, and its groups give the person and the departments.
pub open spec fn command_from(
    a: Option<Seq<Option<Seq<char>>>>,
    r: Option<Seq<Option<Seq<char>>>>,
    m: Option<Seq<Option<Seq<char>>>>,
) -> CommandView {
    if a is Some {
        if two_groups(a) {
            (0, a->0[0]->0, a->0[1]->0, Seq::empty())
        } else {
            (3, Seq::empty(), Seq::empty(), Seq::empty())
        }
    } else if r is Some {
        if two_groups(r) {
            (1, r->0[0]->0, r->0[1]->0, Seq::empty())
        } else {
            (3, Seq::empty(), Seq::empty(), Seq::empty())
        }
    } else if m is Some {
        if three_groups(m) {
            (2, m->0[0]->0, m->0[1]->0, m->0[2]->0)
        } else {
            (3, Seq::empty(), Seq::empty(), Seq::empty())
        }
    } else {
        (3, Seq::empty(), Seq::empty(), Seq::empty())
    }
}

/// How a command line is read: by the captures of the three patterns on it.
pub open spec fn classify_spec(line: Seq<char>) -> CommandView {
    command_from(
        regex_named_captures(add_pattern(), line, two_names()),
        regex_named_captures(remove_pattern(), line, two_names()),
        regex_named_captures(move_pattern(), line, three_names()),
    )
}

/// The view of the captures of a pattern.
pub open spec fn captures_view(c: Option<Vec<Option<String>>>) -> Option<Seq<Option<Seq<char>>>> {
    match c {
        Some(v) => Some(opt_strings_view(v@)),
        None => None,
    }
}

/// The group names as strings.
fn names(three: bool) -> (r: Vec<String>)
    ensures
        strings_view(r@) == if three {
            three_names()
        } else {
            two_names()
        },
{
    let mut v: Vec<String> = Vec::new();
    v.push("person".to_string());
    if three {
        v.push("from_dept".to_string());
        v.push("to_dept".to_string());
    } else {
        v.push("dept".to_string());
    }
    assert(strings_view(v@) =~= if three {
        three_names()
    } else {
        two_names()
    });
    v
}

/// Builds the command from the captures of the `Add`, `Remove` and `Move` patterns (see
/// `command_from`).
pub fn command_from_captures(
    a: Option<Vec<Option<String>>>,
    r: Option<Vec<Option<String>>>,
    m: Option<Vec<Option<String>>>,
) -> (c: HrCommand)
    ensures
        command_view(c) == command_from(captures_view(a), captures_view(r), captures_view(m)),
{
    if let Some(g) = a {
        if g.len() == 2 {
            if let (Some(p), Some(d)) = (&g[0], &g[1]) {
                return HrCommand::Add { person: p.clone(), dept: d.clone() };
            }
        }
        return HrCommand::Ignored;
    }
    if let Some(g) = r {
        if g.len() == 2 {
            if let (Some(p), Some(d)) = (&g[0], &g[1]) {
                return HrCommand::Remove { person: p.clone(), dept: d.clone() };
            }
        }
        return HrCommand::Ignored;
    }
    if let Some(g) = m {
        if g.len() == 3 {
            if let (Some(p), Some(f), Some(t)) = (&g[0], &g[1], &g[2]) {
                return HrCommand::Move { person: p.clone(), from: f.clone(), to: t.clone() };
            }
        }
        return HrCommand::Ignored;
    }
    HrCommand::Ignored
}

/// Reads a command line with the three command patterns.
pub fn classify_command(line: &str) -> (r: HrCommand)
    ensures
        command_view(r) == classify_spec(line@),
{
    let two = names(false);
    let three = names(true);
    let a = regex_captures("^Add (?<person>[\\w-]+) to (?<dept>[\\w-]+)$", line, &two);
    let r = regex_captures("^Remove (?<person>[\\w-]+) from (?<dept>[\\w-]+)$", line, &two);
    let m = regex_captures(
        "^Move (?<person>[\\w-]+) from (?<from_dept>[\\w-]+) to (?<to_dept>[\\w-]+)$",
        line,
        &three,
    );
    command_from_captures(a, r, m)
}

/// The table after a command, on plain values: `Add` puts the person in the department;
/// `Remove` takes the person out of the department (dropping a department left empty); `Move`
/// does both, and only when the person is in the source department. Commands that cannot be
/// executed change nothing.
pub open spec fn apply_command(m: Map<Seq<char>, Set<Seq<char>>>, c: CommandView) -> Map<
    Seq<char>,
    Set<Seq<char>>,
> {
    if c.0 == 0 {
        m.insert(c.2, members_of(m, c.2).insert(c.1))
    } else if c.0 == 1 {
        if members_of(m, c.2).contains(c.1) {
            without_member(m, c.1, c.2)
        } else {
            m
        }
    } else if c.0 == 2 {
        if members_of(m, c.2).contains(c.1) {
            let m1 = without_member(m, c.1, c.2);
            m1.insert(c.3, members_of(m1, c.3).insert(c.1))
        } else {
            m
        }
    } else {
        m
    }
}

/// The members of department `d` (empty when the department is absent).
pub open spec fn members_of(m: Map<Seq<char>, Set<Seq<char>>>, d: Seq<char>) -> Set<Seq<char>> {
    if m.dom().contains(d) {
        m[d]
    } else {
        Set::empty()
    }
}

/// `m` with `p` taken out of department `d`; a department left empty disappears.
pub open spec fn without_member(m: Map<Seq<char>, Set<Seq<char>>>, p: Seq<char>, d: Seq<char>) -> Map<
    Seq<char>,
    Set<Seq<char>>,
> {
    let s = members_of(m, d).remove(p);
    if s == Set::<Seq<char>>::empty() {
        m.remove(d)
    } else {
        m.insert(d, s)
    }
}

/// The table after the commands, in order, starting from `m`.
pub open spec fn run_commands(m: Map<Seq<char>, Set<Seq<char>>>, cmds: Seq<CommandView>) -> Map<
    Seq<char>,
    Set<Seq<char>>,
>
    decreases cmds.len(),
{
    if cmds.len() == 0 {
        m
    } else {
        run_commands(apply_command(m, cmds[0]), cmds.drop_first())
    }
}

/// The map that a list of rows `(department, members)` stands for.
pub open spec fn rows_view(rows: Seq<(String, Vec<String>)>) -> Map<Seq<char>, Set<Seq<char>>>
    decreases rows.len(),
{
    if rows.len() == 0 {
        Map::empty()
    } else {
        rows_view(rows.drop_last()).insert(
            rows.last().0@,
            strings_view(rows.last().1@).to_set(),
        )
    }
}

/// Rows have distinct departments, and non-empty member lists without repetition.
pub open spec fn rows_wf(rows: Seq<(String, Vec<String>)>) -> bool {
    &&& forall|i: int, j: int|
        0 <= i < rows.len() && 0 <= j < rows.len() && i != j ==> (#[trigger] rows[i]).0@ != (
        #[trigger] rows[j]).0@
    &&& forall|i: int|
        0 <= i < rows.len() ==> (#[trigger] rows[i]).1@.len() > 0 && strings_view(
            rows[i].1@,
        ).no_duplicates()
}

/// An organization table: a map from department to the set of its employees, in which no
/// department is empty.
#[derive(Debug)]
pub struct OrgTable {
    rows: Vec<(String, Vec<String>)>,
}

impl View for OrgTable {
    type V = Map<Seq<char>, Set<Seq<char>>>;

    closed spec fn view(&self) -> Map<Seq<char>, Set<Seq<char>>> {
        rows_view(self.rows@)
    }
}

/// The domain and the entries of `rows_view` for rows with distinct departments.
pub proof fn lemma_rows_view(rows: Seq<(String, Vec<String>)>)
    requires
        forall|i: int, j: int|
            0 <= i < rows.len() && 0 <= j < rows.len() && i != j ==> (#[trigger] rows[i]).0@ != (
            #[trigger] rows[j]).0@,
    ensures
        forall|d: Seq<char>|
            rows_view(rows).dom().contains(d) <==> exists|i: int|
                0 <= i < rows.len() && (#[trigger] rows[i]).0@ == d,
        forall|i: int|
            0 <= i < rows.len() ==> rows_view(rows)[(#[trigger] rows[i]).0@] == strings_view(
                rows[i].1@,
            ).to_set(),
        rows_view(rows).dom().finite(),
    decreases rows.len(),
{
    if rows.len() > 0 {
        let init = rows.drop_last();
        lemma_rows_view(init);
        let last = rows.len() - 1;
        assert forall|d: Seq<char>|
            rows_view(rows).dom().contains(d) <==> exists|i: int|
                0 <= i < rows.len() && (#[trigger] rows[i]).0@ == d by {
            if rows_view(rows).dom().contains(d) && d != rows[last].0@ {
                let i = choose|i: int| 0 <= i < init.len() && (#[trigger] init[i]).0@ == d;
                assert(rows[i] == init[i]);
            }
            if exists|i: int| 0 <= i < rows.len() && (#[trigger] rows[i]).0@ == d {
                let i = choose|i: int| 0 <= i < rows.len() && (#[trigger] rows[i]).0@ == d;
                if i < last {
                    assert(init[i] == rows[i]);
                }
            }
        }
        assert forall|i: int| 0 <= i < rows.len() implies rows_view(rows)[(
        #[trigger] rows[i]).0@] == strings_view(rows[i].1@).to_set() by {
            if i < last {
                assert(init[i] == rows[i]);
                assert(rows[i].0@ != rows[last].0@);
            }
        }
    }
}

impl OrgTable {
    /// The rows are well formed.
    pub closed spec fn wf(&self) -> bool {
        rows_wf(self.rows@)
    }

    /// An empty table.
    pub fn new() -> (r: Self)
        ensures
            r.wf(),
            r@ == Map::<Seq<char>, Set<Seq<char>>>::empty(),
    {
        OrgTable { rows: Vec::new() }
    }

    /// The rows `(department, members)` of the table, in no particular order.
    pub fn rows(&self) -> (r: Vec<(String, Vec<String>)>)
        ensures
            rows_view(r@) == self@,
    {
        let mut r: Vec<(String, Vec<String>)> = Vec::new();
        let n = self.rows.len();
        let mut i: usize = 0;
        while i < n
            invariant
                n == self.rows@.len(),
                i <= n,
                rows_view(r@) == rows_view(self.rows@.take(i as int)),
                r@.len() == i,
            decreases n - i,
        {
            let row = &self.rows[i];
            let ghost before = r@;
            r.push((row.0.clone(), row.1.clone()));
            assert(r@.drop_last() == before);
            assert(self.rows@.take(i + 1).drop_last() == self.rows@.take(i as int));
            assert(strings_view(r@.last().1@) == strings_view(self.rows@[i as int].1@));
            i = i + 1;
        }
        assert(self.rows@.take(n as int) == self.rows@);
        r
    }

    /// The index of the row of department `d`.
    fn find_dept(&self, d: &String) -> (r: Option<usize>)
        requires
            self.wf(),
        ensures
            match r {
                Some(i) => i < self.rows@.len() && self.rows@[i as int].0@ == d@,
                None => !self@.dom().contains(d@),
            },
    {
        proof {
            lemma_rows_view(self.rows@);
        }
        let n = self.rows.len();
        let mut i: usize = 0;
        while i < n
            invariant
                n == self.rows@.len(),
                i <= n,
                forall|j: int| 0 <= j < i ==> (#[trigger] self.rows@[j]).0@ != d@,
            decreases n - i,
        {
            if self.rows[i].0 == *d {
                return Some(i);
            }
            i = i + 1;
        }
        None
    }

    /// Whether `p` works in department `d`.
    pub fn has_member(&self, d: &String, p: &String) -> (r: bool)
        requires
            self.wf(),
        ensures
            r == members_of(self@, d@).contains(p@),
    {
        proof {
            lemma_rows_view(self.rows@);
        }
        match self.find_dept(d) {
            Some(i) => {
                let k = find_string(&self.rows[i].1, p);
                proof {
                    let row = self.rows@[i as int];
                    assert(row.0@ == d@);
                    assert(self@.dom().contains(d@));
                    assert(self@[d@] == strings_view(row.1@).to_set());
                    if let Some(kk) = k {
                        assert(strings_view(row.1@)[kk as int] == p@);
                    }
                }
                k.is_some()
            },
            None => false,
        }
    }

    /// Puts `p` in department `d`.
    pub fn add_member(&mut self, d: String, p: String)
        requires
            old(self).wf(),
        ensures
            final(self).wf(),
            final(self)@ == old(self)@.insert(d@, members_of(old(self)@, d@).insert(p@)),
    {
        proof {
            lemma_rows_view(self.rows@);
        }
        let ghost old_rows = self.rows@;
        match self.find_dept(&d) {
            Some(i) => {
                if find_string(&self.rows[i].1, &p).is_none() {
                    let mut members = self.rows[i].1.clone();
                    let ghost old_members = strings_view(members@);
                    members.push(p);
                    assert(strings_view(members@) == old_members.push(p@));
                    proof {
                        lemma_push_no_dup(old_members, p@);
                    }
                    self.rows.set(i, (d, members));
                    proof {
                        lemma_rows_update(old_rows, self.rows@, i as int);
                    }
                } else {
                    let ghost row = old_rows[i as int];
                    assert(row.0@ == d@);
                    assert(old(self)@.dom().contains(d@));
                    assert(old(self)@[d@] == strings_view(row.1@).to_set());
                    assert(strings_view(row.1@).contains(p@)) by {
                        let kk = choose|kk: int| 0 <= kk < row.1@.len() && row.1@[kk]@ == p@;
                        assert(strings_view(row.1@)[kk] == p@);
                    }
                    assert(members_of(old(self)@, d@).contains(p@));
                    assert(members_of(old(self)@, d@).insert(p@) =~= members_of(old(self)@, d@));
                    assert(old(self)@.insert(d@, members_of(old(self)@, d@).insert(p@)) =~= old(
                        self,
                    )@);
                }
            },
            None => {
                let mut members: Vec<String> = Vec::new();
                members.push(p);
                assert(strings_view(members@) == seq![p@]);
                assert forall|y: Seq<char>| seq![p@].contains(y) <==> y == p@ by {
                    if y == p@ {
                        assert(seq![p@][0] == p@);
                    }
                }
                assert(seq![p@].to_set() =~= Set::<Seq<char>>::empty().insert(p@));
                assert(seq![p@].no_duplicates());
                let ghost row_d = d@;
                self.rows.push((d, members));
                proof {
                    assert(self.rows@.drop_last() == old_rows);
                    assert forall|i: int, j: int|
                        0 <= i < self.rows@.len() && 0 <= j < self.rows@.len() && i != j implies (
                    #[trigger] self.rows@[i]).0@ != (#[trigger] self.rows@[j]).0@ by {
                        if i < old_rows.len() && j < old_rows.len() {
                            assert(self.rows@[i] == old_rows[i] && self.rows@[j] == old_rows[j]);
                        } else if i < old_rows.len() {
                            assert(self.rows@[i] == old_rows[i]);
                        } else if j < old_rows.len() {
                            assert(self.rows@[j] == old_rows[j]);
                        }
                    }
                }
            },
        }
    }

    /// Takes `p` out of department `d`, where `p` works; a department left empty disappears.
    pub fn remove_member(&mut self, d: &String, p: &String)
        requires
            old(self).wf(),
            members_of(old(self)@, d@).contains(p@),
        ensures
            final(self).wf(),
            final(self)@ == without_member(old(self)@, p@, d@),
    {
        proof {
            lemma_rows_view(self.rows@);
        }
        let ghost old_rows = self.rows@;
        let i = self.find_dept(d).unwrap();
        let k = find_string(&self.rows[i].1, p).unwrap();
        let mut members = self.rows[i].1.clone();
        let ghost old_members = strings_view(members@);
        let _ = members.remove(k);
        assert(strings_view(members@) == old_members.remove(k as int));
        proof {
            lemma_remove_no_dup(old_members, k as int);
        }
        if members.len() == 0 {
            let _ = self.rows.remove(i);
            proof {
                assert(old_members.remove(k as int).to_set() =~= Set::<Seq<char>>::empty());
                lemma_rows_remove(old_rows, self.rows@, i as int);
            }
        } else {
            let name = d.clone();
            self.rows.set(i, (name, members));
            proof {
                assert(strings_view(members@).to_set() != Set::<Seq<char>>::empty()) by {
                    assert(strings_view(members@).to_set().contains(strings_view(members@)[0]));
                }
                lemma_rows_update(old_rows, self.rows@, i as int);
            }
        }
    }
}

/// Index of `p` in `v`, comparing the text of the strings.
fn find_string(v: &Vec<String>, p: &String) -> (r: Option<usize>)
    ensures
        match r {
            Some(k) => k < v@.len() && v@[k as int]@ == p@,
            None => !strings_view(v@).contains(p@),
        },
{
    let n = v.len();
    let mut k: usize = 0;
    while k < n
        invariant
            n == v@.len(),
            k <= n,
            forall|j: int| 0 <= j < k ==> (#[trigger] v@[j])@ != p@,
        decreases n - k,
    {
        if v[k] == *p {
            return Some(k);
        }
        k = k + 1;
    }
    assert forall|j: int| 0 <= j < n implies strings_view(v@)[j] != p@ by {
        assert(strings_view(v@)[j] == v@[j]@);
    }
    None
}

/// Appending a new element keeps a sequence free of repetitions, and adds it to its set.
pub proof fn lemma_push_no_dup(s: Seq<Seq<char>>, x: Seq<char>)
    requires
        s.no_duplicates(),
        !s.contains(x),
    ensures
        s.push(x).no_duplicates(),
        s.push(x).to_set() == s.to_set().insert(x),
{
    let t = s.push(x);
    assert forall|i: int, j: int| 0 <= i < t.len() && 0 <= j < t.len() && i != j implies t[i]
        != t[j] by {
        if i < s.len() && j < s.len() {
            assert(t[i] == s[i] && t[j] == s[j]);
        } else if i < s.len() {
            assert(t[i] == s[i]);
        } else {
            assert(t[j] == s[j]);
        }
    }
    assert forall|y: Seq<char>| t.contains(y) <==> s.contains(y) || y == x by {
        if t.contains(y) {
            let k = choose|k: int| 0 <= k < t.len() && t[k] == y;
            if k < s.len() {
                assert(s[k] == y);
            }
        }
        if s.contains(y) {
            let k = choose|k: int| 0 <= k < s.len() && s[k] == y;
            assert(t[k] == y);
        }
        if y == x {
            assert(t[s.len() as int] == x);
        }
    }
    assert(t.to_set() =~= s.to_set().insert(x));
}

/// Removing the element at `k` from a sequence without repetitions removes it from its set.
pub proof fn lemma_remove_no_dup(s: Seq<Seq<char>>, k: int)
    requires
        s.no_duplicates(),
        0 <= k < s.len(),
    ensures
        s.remove(k).no_duplicates(),
        s.remove(k).to_set() == s.to_set().remove(s[k]),
{
    let t = s.remove(k);
    assert forall|i: int, j: int| 0 <= i < t.len() && 0 <= j < t.len() && i != j implies t[i]
        != t[j] by {
        let i2 = if i < k { i } else { i + 1 };
        let j2 = if j < k { j } else { j + 1 };
        assert(t[i] == s[i2] && t[j] == s[j2]);
    }
    assert forall|y: Seq<char>| t.contains(y) <==> s.contains(y) && y != s[k] by {
        if t.contains(y) {
            let i = choose|i: int| 0 <= i < t.len() && t[i] == y;
            let i2 = if i < k { i } else { i + 1 };
            assert(s[i2] == y);
        }
        if s.contains(y) && y != s[k] {
            let i = choose|i: int| 0 <= i < s.len() && s[i] == y;
            if i < k {
                assert(t[i] == y);
            } else {
                assert(i != k);
                assert(t[i - 1] == y);
            }
        }
    }
    assert(t.to_set() =~= s.to_set().remove(s[k]));
}

/// Replacing the members of row `i` (same department) updates that department in the view.
pub proof fn lemma_rows_update(
    rows: Seq<(String, Vec<String>)>,
    new_rows: Seq<(String, Vec<String>)>,
    i: int,
)
    requires
        rows_wf(rows),
        0 <= i < rows.len(),
        new_rows.len() == rows.len(),
        new_rows[i].0@ == rows[i].0@,
        new_rows[i].1@.len() > 0,
        strings_view(new_rows[i].1@).no_duplicates(),
        forall|j: int| 0 <= j < rows.len() && j != i ==> new_rows[j] == rows[j],
    ensures
        rows_wf(new_rows),
        rows_view(new_rows) == rows_view(rows).insert(
            rows[i].0@,
            strings_view(new_rows[i].1@).to_set(),
        ),
{
    assert forall|a: int, b: int|
        0 <= a < new_rows.len() && 0 <= b < new_rows.len() && a != b implies (
    #[trigger] new_rows[a]).0@ != (#[trigger] new_rows[b]).0@ by {
        assert(new_rows[a].0@ == rows[a].0@ && new_rows[b].0@ == rows[b].0@);
    }
    assert forall|a: int| 0 <= a < new_rows.len() implies (#[trigger] new_rows[a]).1@.len() > 0
        && strings_view(new_rows[a].1@).no_duplicates() by {
        if a != i {
            assert(new_rows[a] == rows[a]);
        }
    }
    lemma_rows_view(rows);
    lemma_rows_view(new_rows);
    let m = rows_view(rows).insert(rows[i].0@, strings_view(new_rows[i].1@).to_set());
    assert forall|d: Seq<char>| rows_view(new_rows).dom().contains(d) <==> m.dom().contains(d) by {
        if rows_view(new_rows).dom().contains(d) {
            let j = choose|j: int| 0 <= j < new_rows.len() && (#[trigger] new_rows[j]).0@ == d;
            assert(rows[j].0@ == d);
        }
        if rows_view(rows).dom().contains(d) {
            let j = choose|j: int| 0 <= j < rows.len() && (#[trigger] rows[j]).0@ == d;
            assert(new_rows[j].0@ == d);
        }
    }
    assert forall|d: Seq<char>| #[trigger] rows_view(new_rows).dom().contains(d) implies rows_view(
        new_rows,
    )[d] == m[d] by {
        let j = choose|j: int| 0 <= j < new_rows.len() && (#[trigger] new_rows[j]).0@ == d;
        if j != i {
            assert(new_rows[j] == rows[j]);
            assert(rows[j].0@ != rows[i].0@);
        }
    }
    assert(rows_view(new_rows) =~= m);
}

/// Removing row `i` removes its department from the view.
pub proof fn lemma_rows_remove(
    rows: Seq<(String, Vec<String>)>,
    new_rows: Seq<(String, Vec<String>)>,
    i: int,
)
    requires
        rows_wf(rows),
        0 <= i < rows.len(),
        new_rows == rows.remove(i),
    ensures
        rows_wf(new_rows),
        rows_view(new_rows) == rows_view(rows).remove(rows[i].0@),
{
    assert forall|a: int, b: int|
        0 <= a < new_rows.len() && 0 <= b < new_rows.len() && a != b implies (
    #[trigger] new_rows[a]).0@ != (#[trigger] new_rows[b]).0@ by {
        let a2 = if a < i { a } else { a + 1 };
        let b2 = if b < i { b } else { b + 1 };
        assert(new_rows[a] == rows[a2] && new_rows[b] == rows[b2]);
    }
    assert forall|a: int| 0 <= a < new_rows.len() implies (#[trigger] new_rows[a]).1@.len() > 0
        && strings_view(new_rows[a].1@).no_duplicates() by {
        let a2 = if a < i { a } else { a + 1 };
        assert(new_rows[a] == rows[a2]);
    }
    lemma_rows_view(rows);
    lemma_rows_view(new_rows);
    let m = rows_view(rows).remove(rows[i].0@);
    assert forall|d: Seq<char>| rows_view(new_rows).dom().contains(d) <==> m.dom().contains(d) by {
        if rows_view(new_rows).dom().contains(d) {
            let j = choose|j: int| 0 <= j < new_rows.len() && (#[trigger] new_rows[j]).0@ == d;
            let j2 = if j < i { j } else { j + 1 };
            assert(new_rows[j] == rows[j2]);
            assert(j2 != i);
        }
        if m.dom().contains(d) {
            let j = choose|j: int| 0 <= j < rows.len() && (#[trigger] rows[j]).0@ == d;
            assert(j != i);
            if j < i {
                assert(new_rows[j] == rows[j]);
            } else {
                assert(new_rows[j - 1] == rows[j]);
            }
        }
    }
    assert forall|d: Seq<char>| #[trigger] rows_view(new_rows).dom().contains(d) implies rows_view(
        new_rows,
    )[d] == m[d] by {
        let j = choose|j: int| 0 <= j < new_rows.len() && (#[trigger] new_rows[j]).0@ == d;
        let j2 = if j < i { j } else { j + 1 };
        assert(new_rows[j] == rows[j2]);
    }
    assert(rows_view(new_rows) =~= m);
}

/// The views of a list of commands.
pub open spec fn commands_view(v: Seq<HrCommand>) -> Seq<CommandView> {
    v.map_values(|c: HrCommand| command_view(c))
}

/// Runs already-read commands, in order, on an empty table.
pub fn organize_commands(commands: Vec<HrCommand>) -> (r: OrgTable)
    ensures
        r.wf(),
        r@ == run_commands(Map::empty(), commands_view(commands@)),
{
    let mut table = OrgTable::new();
    let n = commands.len();
    let mut i: usize = 0;
    let ghost all = commands_view(commands@);
    assert(all.skip(0) == all);
    while i < n
        invariant
            n == commands@.len(),
            i <= n,
            all == commands_view(commands@),
            table.wf(),
            run_commands(table@, all.skip(i as int)) == run_commands(Map::empty(), all),
        decreases n - i,
    {
        let ghost rest = all.skip(i as int);
        assert(rest[0] == command_view(commands@[i as int]));
        assert(rest.drop_first() == all.skip(i + 1));
        match &commands[i] {
            HrCommand::Add { person, dept } => {
                table.add_member(dept.clone(), person.clone());
            },
            HrCommand::Remove { person, dept } => {
                if table.has_member(dept, person) {
                    table.remove_member(dept, person);
                }
            },
            HrCommand::Move { person, from, to } => {
                if table.has_member(from, person) {
                    table.remove_member(from, person);
                    table.add_member(to.clone(), person.clone());
                }
            },
            HrCommand::Ignored => {},
        }
        i = i + 1;
    }
    assert(all.skip(n as int) == Seq::<CommandView>::empty());
    table
}

/// Reads each command line with the command patterns.
pub open spec fn classify_all(lines: Seq<String>) -> Seq<CommandView> {
    lines.map_values(|l: String| classify_spec(l@))
}

/// Converts HR commands to the organization table: a map from department to the set of its
/// employees, with no empty department.
///
/// The commands are "Add {person} to {department}", "Remove {person} from {department}", and
/// "Move {person} from {department} to {department}"; a command that cannot be executed is
/// ignored. For example, "Add Amir to Engineering", "Add Sally to Sales",
/// "Remove Jeehoon from Sales", "Move Amir from Engineering to Sales" give
/// `Sales -> {Amir, Sally}`.
pub fn organize(commands: Vec<String>) -> (r: OrgTable)
    ensures
        r.wf(),
        r@ == run_commands(Map::empty(), classify_all(commands@)),
{
    let mut parsed: Vec<HrCommand> = Vec::new();
    let n = commands.len();
    let mut i: usize = 0;
    while i < n
        invariant
            n == commands@.len(),
            i <= n,
            commands_view(parsed@) == classify_all(commands@.take(i as int)),
        decreases n - i,
    {
        let c = classify_command(commands[i].as_str());
        let ghost before = commands_view(parsed@);
        parsed.push(c);
        assert(commands_view(parsed@) == before.push(command_view(c)));
        assert(classify_all(commands@.take(i + 1)) == classify_all(commands@.take(i as int)).push(
            classify_spec(commands@[i as int]@),
        ));
        i = i + 1;
    }
    assert(commands@.take(n as int) == commands@);
    organize_commands(parsed)
}


/// No department of a table is empty: every department that appears has at least one member.
pub proof fn lemma_no_empty_department(t: OrgTable)
    requires
        t.wf(),
    ensures
        forall|d: Seq<char>| #[trigger] t@.dom().contains(d) ==> t@[d] != Set::<Seq<char>>::empty(),
{
    lemma_rows_view(t.rows@);
    assert forall|d: Seq<char>| #[trigger] t@.dom().contains(d) implies t@[d] != Set::<Seq<char>>::empty() by {
        let i = choose|i: int| 0 <= i < t.rows@.len() && (#[trigger] t.rows@[i]).0@ == d;
        let members = strings_view(t.rows@[i].1@);
        assert(t.rows@[i].1@.len() > 0);
        assert(members.to_set().contains(members[0]));
    }
}

/// Running commands and then one more is running that one on the table they leave.
pub proof fn lemma_run_push(
    m: Map<Seq<char>, Set<Seq<char>>>,
    cmds: Seq<CommandView>,
    c: CommandView,
)
    ensures
        run_commands(m, cmds.push(c)) == apply_command(run_commands(m, cmds), c),
    decreases cmds.len(),
{
    if cmds.len() == 0 {
        assert(cmds.push(c)[0] == c);
        assert(cmds.push(c).drop_first() =~= Seq::<CommandView>::empty());
        assert(run_commands(apply_command(m, c), Seq::<CommandView>::empty()) == apply_command(m, c));
    } else {
        lemma_run_push(apply_command(m, cmds[0]), cmds.drop_first(), c);
        assert(cmds.push(c)[0] == cmds[0]);
        assert(cmds.push(c).drop_first() =~= cmds.drop_first().push(c));
    }
}

/// What each command does to the table `t` that the earlier commands left, department by
/// department (`o` stands for any other department):
/// - `Add p to d` puts `p` in `d`, creating `d` when it is absent;
/// - `Remove p from d`, when `p` is in `d`, takes `p` out of `d`, and otherwise changes
///   nothing;
/// - `Move p from f to d`, when `p` is in `f`, puts `p` in `d` (created when absent) and, for
///   `f != d`, takes `p` out of `f`; otherwise it changes nothing.
/// No command touches another department.
pub proof fn lemma_command_effects(
    m: Map<Seq<char>, Set<Seq<char>>>,
    cmds: Seq<CommandView>,
    p: Seq<char>,
    f: Seq<char>,
    d: Seq<char>,
    o: Seq<char>,
    x: Seq<char>,
)
    requires
        o != f,
        o != d,
    ensures
        ({
            let t = run_commands(m, cmds);
            let t2 = run_commands(m, cmds.push((0nat, p, d, x)));
            &&& members_of(t2, d) == members_of(t, d).insert(p)
            &&& members_of(t2, o) == members_of(t, o)
        }),
        ({
            let t = run_commands(m, cmds);
            let t2 = run_commands(m, cmds.push((1nat, p, d, x)));
            &&& members_of(t, d).contains(p) ==> members_of(t2, d) == members_of(t, d).remove(p)
            &&& !members_of(t, d).contains(p) ==> t2 == t
            &&& members_of(t2, o) == members_of(t, o)
        }),
        ({
            let t = run_commands(m, cmds);
            let t2 = run_commands(m, cmds.push((2nat, p, f, d)));
            &&& members_of(t, f).contains(p) ==> members_of(t2, d).contains(p)
            &&& members_of(t, f).contains(p) && f != d ==> members_of(t2, d) == members_of(
                t,
                d,
            ).insert(p) && members_of(t2, f) == members_of(t, f).remove(p)
            &&& !members_of(t, f).contains(p) ==> t2 == t
            &&& members_of(t2, o) == members_of(t, o)
        }),
{
    let t = run_commands(m, cmds);
    lemma_run_push(m, cmds, (0nat, p, d, x));
    lemma_run_push(m, cmds, (1nat, p, d, x));
    lemma_run_push(m, cmds, (2nat, p, f, d));
    let ta = apply_command(t, (0nat, p, d, x));
    assert(members_of(ta, d) == members_of(t, d).insert(p));
    assert(members_of(ta, o) == members_of(t, o));
    if members_of(t, d).contains(p) {
        let tr = without_member(t, p, d);
        assert(members_of(tr, d) =~= members_of(t, d).remove(p));
        assert(members_of(tr, o) == members_of(t, o));
    }
    if members_of(t, f).contains(p) {
        let t1 = without_member(t, p, f);
        let tm = t1.insert(d, members_of(t1, d).insert(p));
        assert(members_of(tm, d).contains(p));
        assert(members_of(t1, o) == members_of(t, o));
        assert(members_of(tm, o) == members_of(t, o));
        if f != d {
            assert(members_of(t1, d) == members_of(t, d));
            assert(members_of(t1, f) =~= members_of(t, f).remove(p));
            assert(members_of(tm, f) == members_of(t1, f));
        }
    }
}

} // verus!
