//! Checks that only make sense across a whole zone, as opposed to the
//! per-line syntax checks of `parse_line`.
use vstd::prelude::*;
use crate::record::{Record, RecordData, RecordView};
use crate::text::chars_of;

verus! {

#[derive(Debug)]
pub enum ZoneIssue {
    NoSoa,
    MultipleSoa(Vec<String>),
    CnameConflict(String),
}

pub enum IssueView {
    NoSoa,
    MultipleSoa(Seq<Seq<char>>),
    CnameConflict(Seq<char>),
}

impl View for ZoneIssue {
    type V = IssueView;

    open spec fn view(&self) -> IssueView {
        match self {
            ZoneIssue::NoSoa => IssueView::NoSoa,
            ZoneIssue::MultipleSoa(names) => IssueView::MultipleSoa(strings_view(names@)),
            ZoneIssue::CnameConflict(n) => IssueView::CnameConflict(n@),
        }
    }
}

pub open spec fn strings_view(s: Seq<String>) -> Seq<Seq<char>> {
    s.map_values(|x: String| x@)
}

pub open spec fn records_view(s: Seq<Record>) -> Seq<RecordView> {
    s.map_values(|r: Record| r@)
}

pub open spec fn issues_view(s: Seq<ZoneIssue>) -> Seq<IssueView> {
    s.map_values(|i: ZoneIssue| i@)
}

/// Byte-wise (equivalently, code point-wise) lexicographic order of strings,
/// the order of `str`'s `Ord`.
pub open spec fn lex_lt(a: Seq<char>, b: Seq<char>) -> bool
    decreases a.len(),
{
    if a.len() == 0 {
        b.len() > 0
    } else if b.len() == 0 {
        false
    } else if a[0] != b[0] {
        a[0] < b[0]
    } else {
        lex_lt(a.drop_first(), b.drop_first())
    }
}

pub proof fn lemma_lex_irreflexive(a: Seq<char>)
    ensures
        !lex_lt(a, a),
    decreases a.len(),
{
    if a.len() > 0 {
        lemma_lex_irreflexive(a.drop_first());
    }
}

pub proof fn lemma_lex_transitive(a: Seq<char>, b: Seq<char>, c: Seq<char>)
    requires
        lex_lt(a, b),
        lex_lt(b, c),
    ensures
        lex_lt(a, c),
    decreases a.len(),
{
    if a.len() > 0 && b.len() > 0 && c.len() > 0 && a[0] == b[0] && b[0] == c[0] {
        lemma_lex_transitive(a.drop_first(), b.drop_first(), c.drop_first());
    }
}

pub proof fn lemma_lex_total(a: Seq<char>, b: Seq<char>)
    ensures
        a == b || lex_lt(a, b) || lex_lt(b, a),
    decreases a.len(),
{
    if a.len() > 0 && b.len() > 0 {
        if a[0] == b[0] {
            lemma_lex_total(a.drop_first(), b.drop_first());
            if a.drop_first() == b.drop_first() {
                assert(a =~= seq![a[0]] + a.drop_first());
                assert(b =~= seq![b[0]] + b.drop_first());
            }
        } else {
        }
    } else if a.len() == 0 && b.len() == 0 {
        assert(a =~= b);
    }
}

/// The names of the SOA records, in order.
pub open spec fn soa_names(rs: Seq<RecordView>) -> Seq<Seq<char>>
    decreases rs.len(),
{
    if rs.len() == 0 {
        seq![]
    } else {
        soa_names(rs.drop_last()) + if rs.last().data is Soa {
            seq![rs.last().name]
        } else {
            seq![]
        }
    }
}

/// A zone must have exactly one SOA record.
pub open spec fn soa_issues(rs: Seq<RecordView>) -> Seq<IssueView> {
    let n = soa_names(rs);
    if n.len() == 0 {
        seq![IssueView::NoSoa]
    } else if n.len() == 1 {
        seq![]
    } else {
        seq![IssueView::MultipleSoa(n)]
    }
}

/// A CNAME redirects the whole name, so a name with a CNAME may have no
/// other record (RFC 1035 3.6.2).
pub open spec fn cname_conflict(rs: Seq<RecordView>, n: Seq<char>) -> bool {
    exists|i: int, j: int|
        0 <= i < rs.len() && 0 <= j < rs.len() && i != j && #[trigger] rs[i].name == n
            && #[trigger] rs[j].name == n && rs[i].data is Cname
}

pub open spec fn strictly_sorted(s: Seq<Seq<char>>) -> bool {
    forall|i: int, j: int| 0 <= i < j < s.len() ==> lex_lt(#[trigger] s[i], #[trigger] s[j])
}

pub open spec fn conflict_name(i: IssueView) -> Seq<char> {
    match i {
        IssueView::CnameConflict(n) => n,
        _ => seq![],
    }
}

/// What `check_zone` reports for `rs`: the SOA issue, if any, and then one
/// CNAME conflict for each conflicting name, in the order of the names.
pub open spec fn zone_issues(rs: Seq<RecordView>, issues: Seq<IssueView>) -> bool {
    let p = soa_issues(rs);
    let rest = issues.skip(p.len() as int);
    let names = rest.map_values(|i: IssueView| conflict_name(i));
    &&& issues.len() >= p.len()
    &&& issues.take(p.len() as int) == p
    &&& forall|i: int| 0 <= i < rest.len() ==> #[trigger] rest[i] is CnameConflict
    &&& strictly_sorted(names)
    &&& forall|n: Seq<char>| names.contains(n) <==> cname_conflict(rs, n)
}

fn chars_equal(a: &Vec<char>, b: &Vec<char>) -> (r: bool)
    ensures
        r == (a@ == b@),
{
    if a.len() != b.len() {
        return false;
    }
    let mut i: usize = 0;
    while i < a.len()
        invariant
            a@.len() == b@.len(),
            i <= a@.len(),
            forall|k: int| 0 <= k < i ==> a@[k] == b@[k],
        decreases a.len() - i,
    {
        if a[i] != b[i] {
            return false;
        }
        i = i + 1;
    }
    assert(a@ =~= b@);
    true
}

fn lex_less(a: &Vec<char>, b: &Vec<char>) -> (r: bool)
    ensures
        r == lex_lt(a@, b@),
{
    let mut i: usize = 0;
    assert(a@.skip(0) =~= a@);
    assert(b@.skip(0) =~= b@);
    while i < a.len() && i < b.len() && a[i] == b[i]
        invariant
            i <= a@.len(),
            i <= b@.len(),
            lex_lt(a@, b@) == lex_lt(a@.skip(i as int), b@.skip(i as int)),
        decreases a.len() - i,
    {
        assert(a@.skip(i as int).drop_first() =~= a@.skip(i + 1));
        assert(b@.skip(i as int).drop_first() =~= b@.skip(i + 1));
        i = i + 1;
    }
    if i == a.len() {
        i < b.len()
    } else if i == b.len() {
        false
    } else {
        assert(a@.skip(i as int)[0] == a@[i as int]);
        assert(b@.skip(i as int)[0] == b@[i as int]);
        a[i] < b[i]
    }
}

proof fn lemma_soa_names_step(rs: Seq<RecordView>, i: int)
    requires
        0 <= i < rs.len(),
    ensures
        soa_names(rs.take(i + 1)) == soa_names(rs.take(i)) + if rs[i].data is Soa {
            seq![rs[i].name]
        } else {
            seq![]
        },
{
    assert(rs.take(i + 1).drop_last() =~= rs.take(i));
}

/// Checks properties that only make sense across the whole zone: exactly
/// one SOA record, and no name that mixes a CNAME with anything else.
pub fn check_zone(records: &[Record]) -> (issues: Vec<ZoneIssue>)
    ensures
        zone_issues(records_view(records@), issues_view(issues@)),
{
    let ghost rs = records_view(records@);
    let n = records.len();
    let mut names: Vec<Vec<char>> = Vec::new();
    let mut soa: Vec<String> = Vec::new();
    let mut i: usize = 0;
    while i < n
        invariant
            n == records@.len(),
            rs == records_view(records@),
            i <= n,
            names@.len() == i,
            forall|k: int| 0 <= k < i ==> (#[trigger] names@[k])@ == rs[k].name,
            strings_view(soa@) == soa_names(rs.take(i as int)),
        decreases n - i,
    {
        let r = &records[i];
        names.push(chars_of(r.name.as_str()));
        proof {
            lemma_soa_names_step(rs, i as int);
        }
        match &r.data {
            RecordData::Soa { .. } => {
                let ghost before = soa@;
                soa.push(r.name.clone());
                assert(strings_view(soa@) =~= strings_view(before) + seq![rs[i as int].name]);
            },
            _ => {
                assert(strings_view(soa@) =~= soa_names(rs.take(i as int)) + seq![]);
            },
        }
        i = i + 1;
    }
    assert(rs.take(n as int) =~= rs);
    let mut issues: Vec<ZoneIssue> = Vec::new();
    if soa.len() == 0 {
        issues.push(ZoneIssue::NoSoa);
    } else if soa.len() > 1 {
        issues.push(ZoneIssue::MultipleSoa(soa));
    }
    let ghost p = soa_issues(rs);
    assert(issues_view(issues@) =~= p);
    let mut sorted: Vec<usize> = Vec::new();
    let mut i: usize = 0;
    while i < n
        invariant
            n == records@.len(),
            n == names@.len(),
            rs == records_view(records@),
            rs.len() == n,
            i <= n,
            forall|k: int| 0 <= k < n ==> (#[trigger] names@[k])@ == rs[k].name,
            forall|k: int| 0 <= k < sorted@.len() ==> #[trigger] sorted@[k] < n,
            strictly_sorted(keys_of(rs, sorted@)),
            forall|x: Seq<char>|
                keys_of(rs, sorted@).contains(x) <==> exists|a: int, b: int|
                    0 <= a < i && 0 <= b < rs.len() && a != b && #[trigger] rs[a].name == x
                        && #[trigger] rs[b].name == x && rs[a].data is Cname,
        decreases n - i,
    {
        let ghost keys = keys_of(rs, sorted@);
        let ghost name = rs[i as int].name;
        let is_cname = match &records[i].data {
            RecordData::Cname(_) => true,
            _ => false,
        };
        assert(is_cname == rs[i as int].data is Cname);
        let mut other = false;
        if is_cname {
            let mut j: usize = 0;
            while j < n
                invariant
                    n == names@.len(),
                    rs.len() == n,
                    i < n,
                    j <= n,
                    forall|k: int| 0 <= k < n ==> (#[trigger] names@[k])@ == rs[k].name,
                    other ==> exists|b: int| 0 <= b < n && b != i && #[trigger] rs[b].name == rs[i as int].name,
                    !other ==> forall|b: int| 0 <= b < j && b != i ==> #[trigger] rs[b].name != rs[i as int].name,
                decreases n - j,
            {
                if j != i && chars_equal(&names[j], &names[i]) {
                    assert(names@[j as int]@ == rs[j as int].name);
                    other = true;
                }
                j = j + 1;
            }
        }
        assert(other ==> exists|b: int| 0 <= b < n && b != i && #[trigger] rs[b].name == rs[i as int].name);
        assert(!other ==> !(rs[i as int].data is Cname && exists|b: int| 0 <= b < n && b != i && #[trigger] rs[b].name == rs[i as int].name));
        if other {
            let mut p: usize = 0;
            while p < sorted.len() && lex_less(&names[sorted[p]], &names[i])
                invariant
                    n == names@.len(),
                    rs.len() == n,
                    i < n,
                    p <= sorted@.len(),
                    forall|k: int| 0 <= k < n ==> (#[trigger] names@[k])@ == rs[k].name,
                    forall|k: int| 0 <= k < sorted@.len() ==> #[trigger] sorted@[k] < n,
                    keys == keys_of(rs, sorted@),
                    forall|k: int| 0 <= k < p ==> lex_lt(#[trigger] keys[k], rs[i as int].name),
                decreases sorted.len() - p,
            {
                p = p + 1;
            }
            if p < sorted.len() && chars_equal(&names[sorted[p]], &names[i]) {
                assert(keys[p as int] == name);
                assert(keys.contains(name));
            } else {
                proof {
                    if p < sorted.len() {
                        lemma_lex_total(keys[p as int], name);
                        assert(lex_lt(name, keys[p as int]));
                    }
                }
                sorted.insert(p, i);
                proof {
                    let nk = keys_of(rs, sorted@);
                    assert(nk =~= keys.insert(p as int, name));
                    assert forall|a: int, b: int| 0 <= a < b < nk.len() implies lex_lt(
                        #[trigger] nk[a],
                        #[trigger] nk[b],
                    ) by {
                        if b < p {
                            assert(nk[a] == keys[a] && nk[b] == keys[b]);
                        } else if b == p {
                            assert(nk[a] == keys[a]);
                        } else if a < p {
                            assert(nk[a] == keys[a] && nk[b] == keys[b - 1]);
                            lemma_lex_transitive(keys[a], name, keys[p as int]);
                            if b - 1 > p {
                                lemma_lex_transitive(keys[a], keys[p as int], keys[b - 1]);
                            }
                        } else if a == p {
                            assert(nk[b] == keys[b - 1]);
                            if b - 1 > p {
                                lemma_lex_transitive(name, keys[p as int], keys[b - 1]);
                            }
                        } else {
                            assert(nk[a] == keys[a - 1] && nk[b] == keys[b - 1]);
                        }
                    }
                    assert forall|x: Seq<char>| nk.contains(x) <==> (keys.contains(x) || x == name) by {
                        if nk.contains(x) {
                            let k = choose|k: int| 0 <= k < nk.len() && nk[k] == x;
                            if k < p {
                                assert(keys[k] == x);
                            } else if k > p {
                                assert(keys[k - 1] == x);
                            }
                        }
                        if keys.contains(x) {
                            let k = choose|k: int| 0 <= k < keys.len() && keys[k] == x;
                            if k < p {
                                assert(nk[k] == x);
                            } else {
                                assert(nk[k + 1] == x);
                            }
                        }
                        if x == name {
                            assert(nk[p as int] == x);
                        }
                    }
                }
            }
        }
        proof {
            let nk = keys_of(rs, sorted@);
            assert forall|x: Seq<char>|
                nk.contains(x) <==> exists|a: int, b: int|
                    0 <= a < i + 1 && 0 <= b < rs.len() && a != b && #[trigger] rs[a].name == x
                        && #[trigger] rs[b].name == x && rs[a].data is Cname by {
                if exists|a: int, b: int|
                    0 <= a < i + 1 && 0 <= b < rs.len() && a != b && #[trigger] rs[a].name == x
                        && #[trigger] rs[b].name == x && rs[a].data is Cname {
                    let (a, b) = choose|a: int, b: int|
                        0 <= a < i + 1 && 0 <= b < rs.len() && a != b && #[trigger] rs[a].name == x
                            && #[trigger] rs[b].name == x && rs[a].data is Cname;
                    if a == i {
                        assert(rs[b].name == rs[i as int].name);
                    }
                }
            }
        }
        i = i + 1;
    }
    let ghost keys = keys_of(rs, sorted@);
    let mut k: usize = 0;
    while k < sorted.len()
        invariant
            n == records@.len(),
            rs == records_view(records@),
            forall|m: int| 0 <= m < sorted@.len() ==> #[trigger] sorted@[m] < n,
            keys == keys_of(rs, sorted@),
            k <= sorted@.len(),
            issues_view(issues@) == p + keys.take(k as int).map_values(|x: Seq<char>| IssueView::CnameConflict(x)),
        decreases sorted.len() - k,
    {
        let idx = sorted[k];
        let ghost before = issues_view(issues@);
        issues.push(ZoneIssue::CnameConflict(records[idx].name.clone()));
        assert(issues_view(issues@) =~= before.push(IssueView::CnameConflict(rs[idx as int].name)));
        assert(keys.take(k + 1).map_values(|x: Seq<char>| IssueView::CnameConflict(x)) =~= keys.take(k as int).map_values(|x: Seq<char>| IssueView::CnameConflict(x)).push(IssueView::CnameConflict(keys[k as int])));
        k = k + 1;
    }
    proof {
        let iv = issues_view(issues@);
        assert(keys.take(k as int) =~= keys);
        let rest = iv.skip(p.len() as int);
        assert(iv.take(p.len() as int) =~= p);
        assert(rest =~= keys.map_values(|x: Seq<char>| IssueView::CnameConflict(x)));
        assert(rest.map_values(|i: IssueView| conflict_name(i)) =~= keys);
        assert forall|x: Seq<char>| keys.contains(x) <==> cname_conflict(rs, x) by {
            if keys.contains(x) {
                let (a, b) = choose|a: int, b: int|
                    0 <= a < n && 0 <= b < rs.len() && a != b && #[trigger] rs[a].name == x
                        && #[trigger] rs[b].name == x && rs[a].data is Cname;
                assert(rs[a].name == x && rs[b].name == x);
            }
            if cname_conflict(rs, x) {
                let (a, b) = choose|a: int, b: int|
                    0 <= a < rs.len() && 0 <= b < rs.len() && a != b && #[trigger] rs[a].name == x
                        && #[trigger] rs[b].name == x && rs[a].data is Cname;
                assert(rs[a].name == x && rs[b].name == x);
            }
        }
    }
    issues
}

/// The names of the records at the indices `idx`.
pub open spec fn keys_of(rs: Seq<RecordView>, idx: Seq<usize>) -> Seq<Seq<char>> {
    idx.map_values(|k: usize| rs[k as int].name)
}

} // verus!
