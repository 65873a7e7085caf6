//! Names of the tables a reducer touches, brought to one canonical
//! `node.module.table` form with lowercase segments:
//! - `table`: the local node, the current module, `table`;
//! - `module.table`: the local node, `module`, `table`;
//! - `node.module.table`: as written.
use vstd::prelude::*;
use crate::node::NodeId;
use crate::persistence::log_validation::texts;
use crate::runtime::value::same_text;
use crate::text::{debug_quoted, debug_text, lowercase_text, lowercased, trim_text, trimmed};

verus! {

/// The pieces of `s` between dots, in order; `s` with `k` dots has `k + 1`
/// pieces, some of them possibly empty.
pub open spec fn split_dot(s: Seq<char>) -> Seq<Seq<char>>
    decreases s.len(),
{
    if s.len() == 0 {
        seq![Seq::<char>::empty()]
    } else {
        let prev = split_dot(s.drop_last());
        if s.last() == '.' {
            prev.push(Seq::<char>::empty())
        } else {
            prev.update(prev.len() - 1, prev.last().push(s.last()))
        }
    }
}

proof fn lemma_split_dot_nonempty(s: Seq<char>)
    ensures
        split_dot(s).len() >= 1,
    decreases s.len(),
{
    if s.len() > 0 {
        lemma_split_dot_nonempty(s.drop_last());
    }
}

/// The segments of an access entry: its dot-separated pieces, each
/// trimmed, the empty ones dropped.
pub open spec fn access_parts(entry: Seq<char>) -> Seq<Seq<char>> {
    split_dot(entry).map_values(|p: Seq<char>| trimmed(p)).filter(|p: Seq<char>| p.len() > 0)
}

pub open spec fn join3(a: Seq<char>, b: Seq<char>, c: Seq<char>) -> Seq<char> {
    a + "."@ + b + "."@ + c
}

pub open spec fn one_part_message() -> Seq<char> {
    "local node display name is not configured; use a full `node.module.table` path, or pass the node name when creating the runtime"@
}

pub open spec fn two_part_message() -> Seq<char> {
    "local node display name is not configured; use `node.module.table` when you omit the node segment"@
}

/// The canonical form of the access entry `entry`, or why it has none.
pub open spec fn normalized_ref(entry: Seq<char>, local_node: Option<Seq<char>>, current_module: Seq<char>) -> Result<
    Seq<char>,
    Seq<char>,
> {
    let e = trimmed(entry);
    let parts = access_parts(e);
    let cm = lowercased(trimmed(current_module));
    if e.len() == 0 {
        Err("empty table access entry"@)
    } else if parts.len() == 1 {
        match local_node {
            None => Err(one_part_message()),
            Some(ln) => Ok(join3(lowercased(ln), cm, lowercased(parts[0]))),
        }
    } else if parts.len() == 2 {
        match local_node {
            None => Err(two_part_message()),
            Some(ln) => Ok(join3(lowercased(ln), lowercased(parts[0]), lowercased(parts[1]))),
        }
    } else if parts.len() == 3 {
        Ok(join3(lowercased(parts[0]), lowercased(parts[1]), lowercased(parts[2])))
    } else {
        Err(
            "invalid table access "@ + debug_text(e)
                + ": expected `table`, `module.table`, or `node.module.table`"@,
        )
    }
}

pub open spec fn opt_text(o: Option<&str>) -> Option<Seq<char>> {
    match o {
        Some(s) => Some(s@),
        None => None,
    }
}

/// The pieces of `s` between dots.
fn split_on_dots<'a>(s: &'a str) -> (r: Vec<&'a str>)
    ensures
        r@.map_values(|p: &str| p@) == split_dot(s@),
{
    let n = s.unicode_len();
    let mut pieces: Vec<&'a str> = Vec::new();
    let mut start: usize = 0;
    let mut i: usize = 0;
    proof {
        assert(split_dot(s@.take(0)) =~= seq![Seq::<char>::empty()]) by {
            assert(s@.take(0) =~= Seq::<char>::empty());
        }
    }
    while i < n
        invariant
            n == s@.len(),
            start <= i <= n,
            ({
                let sp = split_dot(s@.take(i as int));
                &&& sp.len() >= 1
                &&& pieces@.map_values(|p: &str| p@) == sp.drop_last()
                &&& sp.last() == s@.subrange(start as int, i as int)
            }),
        decreases n - i,
    {
        let c = s.get_char(i);
        proof {
            let t = s@.take(i + 1);
            assert(t.drop_last() =~= s@.take(i as int));
            assert(t.last() == c);
            lemma_split_dot_nonempty(s@.take(i as int));
        }
        if c == '.' {
            let piece = s.substring_char(start, i);
            let ghost before = pieces@;
            pieces.push(piece);
            proof {
                assert(pieces@.map_values(|p: &str| p@) =~= before.map_values(|p: &str| p@).push(piece@));
                let sp = split_dot(s@.take(i as int));
                let sp2 = split_dot(s@.take(i + 1));
                assert(sp2 == sp.push(Seq::<char>::empty()));
                assert(sp2.drop_last() =~= sp);
                assert(sp =~= sp.drop_last().push(sp.last()));
                assert(s@.subrange(i + 1, i + 1) =~= Seq::<char>::empty());
            }
            start = i + 1;
        } else {
            proof {
                let sp = split_dot(s@.take(i as int));
                let sp2 = split_dot(s@.take(i + 1));
                assert(sp2 == sp.update(sp.len() - 1, sp.last().push(c)));
                assert(sp2.drop_last() =~= sp.drop_last());
                assert(s@.subrange(start as int, i + 1) =~= s@.subrange(start as int, i as int).push(c));
            }
        }
        i = i + 1;
    }
    let last = s.substring_char(start, n);
    let ghost before = pieces@;
    pieces.push(last);
    proof {
        assert(s@.take(n as int) =~= s@);
        let sp = split_dot(s@);
        assert(pieces@.map_values(|p: &str| p@) =~= before.map_values(|p: &str| p@).push(last@));
        assert(sp =~= sp.drop_last().push(sp.last()));
    }
    pieces
}

/// The segments of `entry`: its pieces between dots, trimmed, without the
/// empty ones.
fn segments<'a>(entry: &'a str) -> (r: Vec<&'a str>)
    ensures
        r@.map_values(|p: &str| p@) == access_parts(entry@),
{
    let pieces = split_on_dots(entry);
    let ghost trimmed_pieces = split_dot(entry@).map_values(|p: Seq<char>| trimmed(p));
    let mut out: Vec<&'a str> = Vec::new();
    let mut i: usize = 0;
    while i < pieces.len()
        invariant
            i <= pieces@.len(),
            pieces@.map_values(|p: &str| p@) == split_dot(entry@),
            trimmed_pieces == split_dot(entry@).map_values(|p: Seq<char>| trimmed(p)),
            out@.map_values(|p: &str| p@) == trimmed_pieces.take(i as int).filter(|p: Seq<char>| p.len() > 0),
        decreases pieces.len() - i,
    {
        let t = trim_text(pieces[i]);
        proof {
            assert(split_dot(entry@)[i as int] == pieces@[i as int]@);
            assert(trimmed_pieces[i as int] == t@);
            assert(trimmed_pieces.take(i + 1).drop_last() =~= trimmed_pieces.take(i as int));
            assert(trimmed_pieces.take(i + 1).last() == t@);
            reveal_with_fuel(Seq::filter, 1);
        }
        let ghost before = out@;
        if t.unicode_len() > 0 {
            out.push(t);
            proof {
                assert(out@.map_values(|p: &str| p@) =~= before.map_values(|p: &str| p@).push(t@));
            }
        }
        i = i + 1;
    }
    proof {
        assert(trimmed_pieces.take(i as int) =~= trimmed_pieces);
    }
    out
}

/// `a.b.c` from three texts.
fn join_three(a: String, b: &str, c: &str) -> (r: String)
    ensures
        r@ == join3(a@, b@, c@),
{
    proof {
        reveal_strlit(".");
    }
    let mut r = a;
    r.append(".");
    r.append(b);
    r.append(".");
    r.append(c);
    r
}

/// Bring a user-written table access entry to its canonical
/// `node.module.table` form, lowercase.
pub fn normalize_user_table_ref(entry: &str, local_node: Option<&str>, current_module: &str) -> (r: Result<String, String>)
    ensures
        match normalized_ref(entry@, opt_text(local_node), current_module@) {
            Ok(t) => r matches Ok(x) && x@ == t,
            Err(m) => r matches Err(x) && x@ == m,
        },
{
    let entry = trim_text(entry);
    if entry.unicode_len() == 0 {
        return Err("empty table access entry".to_owned());
    }
    let parts = segments(entry);
    let cm = lowercase_text(trim_text(current_module));
    proof {
        assert(parts@.len() == access_parts(entry@).len());
        if parts@.len() > 0 {
            assert(parts@[0]@ == access_parts(entry@)[0]);
        }
        if parts@.len() > 1 {
            assert(parts@[1]@ == access_parts(entry@)[1]);
        }
        if parts@.len() > 2 {
            assert(parts@[2]@ == access_parts(entry@)[2]);
        }
    }
    if parts.len() == 1 {
        match local_node {
            None => Err(
                "local node display name is not configured; use a full `node.module.table` path, or pass the node name when creating the runtime".to_owned(),
            ),
            Some(ln) => {
                let table = lowercase_text(parts[0]);
                Ok(join_three(lowercase_text(ln), cm.as_str(), table.as_str()))
            },
        }
    } else if parts.len() == 2 {
        match local_node {
            None => Err(
                "local node display name is not configured; use `node.module.table` when you omit the node segment".to_owned(),
            ),
            Some(ln) => {
                let module = lowercase_text(parts[0]);
                let table = lowercase_text(parts[1]);
                Ok(join_three(lowercase_text(ln), module.as_str(), table.as_str()))
            },
        }
    } else if parts.len() == 3 {
        let module = lowercase_text(parts[1]);
        let table = lowercase_text(parts[2]);
        Ok(join_three(lowercase_text(parts[0]), module.as_str(), table.as_str()))
    } else {
        let mut m = "invalid table access ".to_owned();
        m.append(debug_quoted(entry).as_str());
        m.append(": expected `table`, `module.table`, or `node.module.table`");
        Err(m)
    }
}

/// The canonical forms of all `entries`, each once; the first entry that
/// has none stops the expansion with its error.
pub fn expand_access_set(entries: &[String], local_node: Option<&str>, current_module: &str) -> (r: Result<Vec<String>, String>)
    ensures
        match r {
            Ok(v) => {
                &&& forall|i: int| 0 <= i < entries@.len() ==> (#[trigger] normalized_ref(entries@[i]@, opt_text(local_node), current_module@)) is Ok
                &&& texts(v@).no_duplicates()
                &&& forall|t: Seq<char>| texts(v@).contains(t) <==> exists|i: int| 0 <= i < entries@.len()
                    && #[trigger] normalized_ref(entries@[i]@, opt_text(local_node), current_module@) == Ok::<Seq<char>, Seq<char>>(t)
            },
            Err(e) => exists|i: int|
                0 <= i < entries@.len() && normalized_ref(entries@[i]@, opt_text(local_node), current_module@) == Err::<Seq<char>, Seq<char>>(e@)
                    && forall|j: int| 0 <= j < i ==> (#[trigger] normalized_ref(entries@[j]@, opt_text(local_node), current_module@)) is Ok,
        },
{
    let ghost ln = opt_text(local_node);
    let ghost cm = current_module@;
    let mut out: Vec<String> = Vec::new();
    let mut i: usize = 0;
    while i < entries.len()
        invariant
            i <= entries@.len(),
            ln == opt_text(local_node),
            cm == current_module@,
            forall|j: int| 0 <= j < i ==> (#[trigger] normalized_ref(entries@[j]@, ln, cm)) is Ok,
            texts(out@).no_duplicates(),
            forall|t: Seq<char>| texts(out@).contains(t) <==> exists|j: int| 0 <= j < i
                && #[trigger] normalized_ref(entries@[j]@, ln, cm) == Ok::<Seq<char>, Seq<char>>(t),
        decreases entries.len() - i,
    {
        let n = match normalize_user_table_ref(entries[i].as_str(), local_node, current_module) {
            Ok(n) => n,
            Err(e) => {
                return Err(e);
            },
        };
        let ghost x = n@;
        let mut seen = false;
        let mut j: usize = 0;
        while j < out.len()
            invariant
                j <= out@.len(),
                seen == exists|q: int| 0 <= q < j && out@[q]@ == x,
                x == n@,
            decreases out.len() - j,
        {
            if same_text(out[j].as_str(), n.as_str()) {
                seen = true;
            }
            j = j + 1;
        }
        let ghost before = out@;
        if !seen {
            out.push(n);
            proof {
                assert(texts(out@) =~= texts(before).push(x));
                assert forall|q: int| 0 <= q < texts(before).len() implies texts(before)[q] != x by {
                    assert(texts(before)[q] == before[q]@);
                }
            }
        }
        proof {
            assert(normalized_ref(entries@[i as int]@, ln, cm) == Ok::<Seq<char>, Seq<char>>(x));
            assert(texts(out@).contains(x)) by {
                if seen {
                    let q = choose|q: int| 0 <= q < j && before[q]@ == x;
                    assert(texts(out@)[q] == x);
                } else {
                    assert(texts(out@)[before.len() as int] == x);
                }
            }
            assert forall|t: Seq<char>| texts(out@).contains(t) <==> exists|j: int| 0 <= j < i + 1
                && #[trigger] normalized_ref(entries@[j]@, ln, cm) == Ok::<Seq<char>, Seq<char>>(t) by {
                if texts(out@).contains(t) {
                    let q = choose|q: int| 0 <= q < texts(out@).len() && texts(out@)[q] == t;
                    if q < before.len() {
                        assert(texts(before)[q] == t);
                        assert(texts(before).contains(t));
                    } else {
                        assert(t == x);
                    }
                }
                if exists|j: int| 0 <= j < i + 1 && #[trigger] normalized_ref(entries@[j]@, ln, cm) == Ok::<Seq<char>, Seq<char>>(t) {
                    let j = choose|j: int| 0 <= j < i + 1 && #[trigger] normalized_ref(entries@[j]@, ln, cm) == Ok::<Seq<char>, Seq<char>>(t);
                    if j < i {
                        assert(texts(before).contains(t));
                        let w = choose|w: int| 0 <= w < texts(before).len() && texts(before)[w] == t;
                        assert(texts(out@)[w] == t);
                    }
                }
            }
        }
        i = i + 1;
    }
    Ok(out)
}

/// A local copy of a table that lives on another node.
#[derive(Debug, Clone)]
pub struct ReplicaBinding {
    pub owner_module_name: String,
    pub source_node_id: NodeId,
    pub source_node_name: String,
    pub source_module_name: String,
    pub source_table_name: String,
    pub local_table_name: String,
}

/// The first binding of `owner` whose local table is `physical`.
pub open spec fn binding_for(bindings: Seq<ReplicaBinding>, owner: Seq<char>, physical: Seq<char>, n: int) -> Option<int>
    decreases n,
{
    if n <= 0 {
        None
    } else {
        match binding_for(bindings, owner, physical, n - 1) {
            Some(p) => Some(p),
            None => if bindings[n - 1].owner_module_name@ == owner && bindings[n - 1].local_table_name@ == physical {
                Some(n - 1)
            } else {
                None
            },
        }
    }
}

/// The canonical name of the physical table `physical` of the module
/// `owner_module`: the source table's for a replica, the local one's
/// otherwise.
pub open spec fn canonical_name(
    physical: Seq<char>,
    owner_module: Seq<char>,
    local_node: Option<Seq<char>>,
    bindings: Seq<ReplicaBinding>,
) -> Result<Seq<char>, Seq<char>> {
    match binding_for(bindings, owner_module, physical, bindings.len() as int) {
        Some(p) => Ok(
            join3(
                lowercased(bindings[p].source_node_name@),
                lowercased(bindings[p].source_module_name@),
                lowercased(bindings[p].source_table_name@),
            ),
        ),
        None => match local_node {
            None => Err(
                "local node display name is not configured; cannot resolve ACL for physical table "@ + debug_text(
                    physical,
                ),
            ),
            Some(ln) => Ok(join3(lowercased(ln), lowercased(owner_module), lowercased(physical))),
        },
    }
}

/// Map a physical table name, native or replica, to the same canonical
/// `node.module.table` form that `normalize_user_table_ref` gives.
pub fn canonical_physical_name(
    physical: &str,
    owner_module: &str,
    local_node: Option<&str>,
    replica_bindings: &[ReplicaBinding],
) -> (r: Result<String, String>)
    ensures
        match canonical_name(physical@, owner_module@, opt_text(local_node), replica_bindings@) {
            Ok(t) => r matches Ok(x) && x@ == t,
            Err(m) => r matches Err(x) && x@ == m,
        },
{
    let mut k: usize = 0;
    while k < replica_bindings.len()
        invariant
            k <= replica_bindings@.len(),
            binding_for(replica_bindings@, owner_module@, physical@, k as int) is None,
        decreases replica_bindings.len() - k,
    {
        let b = &replica_bindings[k];
        if same_text(b.owner_module_name.as_str(), owner_module) && same_text(b.local_table_name.as_str(), physical) {
            proof {
                lemma_binding_stays(replica_bindings@, owner_module@, physical@, k + 1, replica_bindings@.len() as int);
            }
            let module = lowercase_text(b.source_module_name.as_str());
            let table = lowercase_text(b.source_table_name.as_str());
            return Ok(join_three(lowercase_text(b.source_node_name.as_str()), module.as_str(), table.as_str()));
        }
        k = k + 1;
    }
    match local_node {
        None => {
            let mut m = "local node display name is not configured; cannot resolve ACL for physical table ".to_owned();
            m.append(debug_quoted(physical).as_str());
            Err(m)
        },
        Some(ln) => {
            let module = lowercase_text(owner_module);
            let table = lowercase_text(physical);
            Ok(join_three(lowercase_text(ln), module.as_str(), table.as_str()))
        },
    }
}

proof fn lemma_binding_stays(bindings: Seq<ReplicaBinding>, owner: Seq<char>, physical: Seq<char>, k: int, n: int)
    requires
        0 <= k <= n,
        binding_for(bindings, owner, physical, k) is Some,
    ensures
        binding_for(bindings, owner, physical, n) == binding_for(bindings, owner, physical, k),
    decreases n - k,
{
    if n > k {
        lemma_binding_stays(bindings, owner, physical, k, n - 1);
    }
}

} // verus!
