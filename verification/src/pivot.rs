//! Federation control: the known-client list behind the rendezvous
//! endpoint, the attach-point selection that builds a fan-out-two reduction
//! tree, and the URLs a joining proxy contacts.

use vstd::prelude::*;

verus! {

/// One known proxy and the children mapped to it.
#[derive(Debug, PartialEq)]
pub struct ClientPivot {
    pub url: String,
    pub refcount: u64,
    pub child: Vec<String>,
}

impl ClientPivot {
    /// A fresh, childless node.
    pub fn new(url: String) -> (r: ClientPivot)
        ensures
            r.url == url,
            r.refcount == 0,
            r.child@.len() == 0,
    {
        ClientPivot { url, refcount: 0, child: Vec::new() }
    }

    /// Record a new child of this node.
    pub fn mapto(&mut self, child_url: String)
        requires
            old(self).refcount < 2,
        ensures
            final(self).url == old(self).url,
            final(self).refcount == old(self).refcount + 1,
            final(self).child@ == old(self).child@.push(child_url),
    {
        self.refcount = self.refcount + 1;
        self.child.push(child_url);
    }

    /// A partially attached node: it already has exactly one child, and is
    /// preferred as the next attach point.
    pub fn is_partial(&self) -> (r: bool)
        ensures
            r == (self.refcount == 1),
    {
        self.refcount == 1
    }

    /// A node that can still take a child.
    pub fn is_free(&self) -> (r: bool)
        ensures
            r == (self.refcount < 2),
    {
        self.refcount < 2
    }
}

/// Every known node has at most two children.
pub open spec fn fanout_bounded(cs: Seq<ClientPivot>) -> bool {
    forall|i: int| 0 <= i < cs.len() ==> (#[trigger] cs[i]).refcount <= 2
}

/// Index of the first node with exactly one child, or -1.
pub open spec fn first_partial(cs: Seq<ClientPivot>) -> int
    decreases cs.len(),
{
    if cs.len() == 0 {
        -1
    } else if cs[0].refcount == 1 {
        0
    } else {
        let r = first_partial(cs.drop_first());
        if r < 0 {
            -1
        } else {
            r + 1
        }
    }
}

/// Index of the first node that can take a child, or -1.
pub open spec fn first_free(cs: Seq<ClientPivot>) -> int
    decreases cs.len(),
{
    if cs.len() == 0 {
        -1
    } else if cs[0].refcount < 2 {
        0
    } else {
        let r = first_free(cs.drop_first());
        if r < 0 {
            -1
        } else {
            r + 1
        }
    }
}

/// What the first-match scans return.
pub proof fn lemma_first_scans(cs: Seq<ClientPivot>)
    ensures
        first_partial(cs) >= 0 ==> 0 <= first_partial(cs) < cs.len() && cs[first_partial(
            cs,
        )].refcount == 1,
        first_partial(cs) < 0 ==> forall|i: int| 0 <= i < cs.len() ==> cs[i].refcount != 1,
        forall|i: int|
            0 <= i < cs.len() && cs[i].refcount == 1 ==> 0 <= first_partial(cs) <= i,
        first_free(cs) >= 0 ==> 0 <= first_free(cs) < cs.len() && cs[first_free(cs)].refcount < 2,
        first_free(cs) < 0 ==> forall|i: int| 0 <= i < cs.len() ==> cs[i].refcount >= 2,
        forall|i: int| 0 <= i < cs.len() && cs[i].refcount < 2 ==> 0 <= first_free(cs) <= i,
    decreases cs.len(),
{
    if cs.len() > 0 {
        lemma_first_scans(cs.drop_first());
        assert(forall|i: int| 1 <= i < cs.len() ==> cs[i] == cs.drop_first()[i - 1]);
    }
}

/// The attach point a pivot request selects: the first node with exactly
/// one child, else the first node that can still take one.
pub open spec fn pivot_target(cs: Seq<ClientPivot>) -> int {
    if first_partial(cs) >= 0 {
        first_partial(cs)
    } else {
        first_free(cs)
    }
}

/// Handle a pivot request: the most partially attached known node takes
/// `from` as a child and is returned as the attach point, and `from` joins
/// the known list as a fresh node.  With every node full, no attach point
/// is returned but `from` still becomes known.
pub fn handle_pivot(clients: &mut Vec<ClientPivot>, from: String) -> (r: Option<String>)
    requires
        fanout_bounded(old(clients)@),
    ensures
        fanout_bounded(final(clients)@),
        ({
            let t = pivot_target(old(clients)@);
            let cs = final(clients)@;
            let oldcs = old(clients)@;
            if t >= 0 {
                r is Some && r->0@ == oldcs[t].url@ && cs.len() == oldcs.len() + 1
                    && cs[t].url == oldcs[t].url && cs[t].refcount == oldcs[t].refcount + 1
                    && cs[t].child@ == oldcs[t].child@.push(from) && cs.last().url == from
                    && cs.last().refcount == 0 && cs.last().child@.len() == 0 && (forall|j: int|
                    0 <= j < oldcs.len() && j != t ==> cs[j] == oldcs[j])
            } else {
                r is None && cs.len() == oldcs.len() + 1 && cs.last().url == from
                    && cs.last().refcount == 0 && cs.last().child@.len() == 0 && (forall|j: int|
                    0 <= j < oldcs.len() ==> cs[j] == oldcs[j])
            }
        }),
{
    proof {
        lemma_first_scans(clients@);
    }
    let t = find_attach_point(clients);
    let n = clients.len();
    let resp: Option<String> = if t < n {
        let tgt = &mut clients[t];
        let url = tgt.url.clone();
        tgt.mapto(from.clone());
        proof {
            assert(forall|j: int|
                0 <= j < clients@.len() && j != t as int ==> clients@[j] == old(clients)@[j]);
        }
        Some(url)
    } else {
        None
    };
    clients.push(ClientPivot::new(from));
    proof {
        assert(forall|j: int|
            0 <= j < clients@.len() - 1 ==> clients@[j] == clients@.drop_last()[j]);
    }
    resp
}

/// The index the selection rule picks, or the length when every node is
/// full.
fn find_attach_point(clients: &Vec<ClientPivot>) -> (r: usize)
    requires
        fanout_bounded(clients@),
    ensures
        pivot_target(clients@) >= 0 ==> r == pivot_target(clients@) && r < clients@.len()
            && clients@[r as int].refcount < 2,
        pivot_target(clients@) < 0 ==> r == clients@.len(),
{
    proof {
        lemma_first_scans(clients@);
    }
    let n = clients.len();
    let mut i: usize = 0;
    while i < n
        invariant
            n == clients@.len(),
            0 <= i <= n,
            forall|j: int| 0 <= j < i ==> clients@[j].refcount != 1,
        decreases n - i,
    {
        if clients[i].refcount == 1 {
            proof {
                lemma_first_scans(clients@);
            }
            return i;
        }
        i = i + 1;
        proof {
            lemma_first_scans(clients@);
        }
    }
    let mut k: usize = 0;
    while k < n
        invariant
            n == clients@.len(),
            0 <= k <= n,
            first_partial(clients@) < 0,
            forall|j: int| 0 <= j < k ==> clients@[j].refcount >= 2,
        decreases n - k,
    {
        if clients[k].refcount < 2 {
            proof {
                lemma_first_scans(clients@);
            }
            return k;
        }
        k = k + 1;
        proof {
            lemma_first_scans(clients@);
        }
    }
    proof {
        lemma_first_scans(clients@);
    }
    n
}

/// The edges leaving one node: a pair per child.
pub open spec fn edges_of_node(c: ClientPivot) -> Seq<(Seq<char>, Seq<char>)> {
    c.child@.map_values(|ch: String| (c.url@, ch@))
}

/// The tree's edge list, parent by parent.
pub open spec fn edges_of(cs: Seq<ClientPivot>) -> Seq<(Seq<char>, Seq<char>)>
    decreases cs.len(),
{
    if cs.len() == 0 {
        Seq::empty()
    } else {
        edges_of(cs.drop_last()) + edges_of_node(cs.last())
    }
}

/// The tree's edge list: one pair per parent and child.
pub fn topo_edges(clients: &Vec<ClientPivot>) -> (r: Vec<(String, String)>)
    ensures
        r@.map_values(|p: (String, String)| (p.0@, p.1@)) == edges_of(clients@),
{
    let mut ret: Vec<(String, String)> = Vec::new();
    let n = clients.len();
    let mut i: usize = 0;
    proof {
        assert(ret@.map_values(|p: (String, String)| (p.0@, p.1@)) =~= edges_of(
            clients@.take(0),
        ));
    }
    while i < n
        invariant
            n == clients@.len(),
            0 <= i <= n,
            ret@.map_values(|p: (String, String)| (p.0@, p.1@)) =~= edges_of(
                clients@.take(i as int),
            ),
        decreases n - i,
    {
        proof {
            let t1 = clients@.take(i + 1 as int);
            assert(t1.drop_last() =~= clients@.take(i as int));
            assert(t1.last() == clients@[i as int]);
        }
        let m = clients[i].child.len();
        let mut c: usize = 0;
        proof {
            assert(edges_of_node(clients@[i as int]).take(0) =~= Seq::<(
                Seq<char>,
                Seq<char>,
            )>::empty());
        }
        while c < m
            invariant
                n == clients@.len(),
                0 <= i < n,
                m == clients@[i as int].child@.len(),
                0 <= c <= m,
                ret@.map_values(|p: (String, String)| (p.0@, p.1@)) =~= edges_of(
                    clients@.take(i as int),
                ) + edges_of_node(clients@[i as int]).take(c as int),
            decreases m - c,
        {
            let parent = clients[i].url.clone();
            let ch = clients[i].child[c].clone();
            proof {
                assert(parent@ == clients@[i as int].url@);
                assert(ch@ == clients@[i as int].child@[c as int]@);
            }
            let ghost pre = ret@;
            ret.push((parent, ch));
            proof {
                let node = clients@[i as int];
                assert(edges_of_node(node).len() == node.child@.len());
                assert(edges_of_node(node)[c as int] == (node.url@, node.child@[c as int]@));
                let f = |p: (String, String)| (p.0@, p.1@);
                assert(ret@ == pre.push((parent, ch)));
                assert(ret@.map_values(f) =~= pre.map_values(f).push((parent@, ch@)));
                assert(edges_of(clients@.take(i as int)) + edges_of_node(node).take(c + 1 as int)
                    =~= (edges_of(clients@.take(i as int)) + edges_of_node(node).take(
                    c as int,
                )).push(edges_of_node(node)[c as int]));
                assert(ret@.map_values(f) =~= edges_of(clients@.take(i as int)) + edges_of_node(
                    clients@[i as int],
                ).take(c + 1 as int));
            }
            c = c + 1;
        }
        proof {
            assert(edges_of_node(clients@[i as int]).take(m as int) =~= edges_of_node(
                clients@[i as int],
            ));
            assert(ret@.map_values(|p: (String, String)| (p.0@, p.1@)) =~= edges_of(
                clients@.take(i + 1 as int),
            ));
        }
        i = i + 1;
    }
    proof {
        assert(clients@.take(n as int) =~= clients@);
    }
    ret
}

/// The rendezvous URL a joining proxy asks for an attach point.
pub fn pivot_url(root_server: &str, my_server_address: &str) -> (r: String)
    ensures
        r@ == root_server@ + "/pivot?from="@ + my_server_address@,
{
    let mut url = root_server.to_owned();
    url.append("/pivot?from=");
    url.append(my_server_address);
    url
}

/// The registration URL a joining proxy calls on its attach point.
pub fn join_url(target: &str, my_server_address: &str, period: &str) -> (r: String)
    ensures
        r@ == "http://"@ + target@ + "/join?to="@ + my_server_address@ + "&period="@ + period@,
{
    let mut url = String::new();
    url.append("http://");
    url.append(target);
    url.append("/join?to=");
    url.append(my_server_address);
    url.append("&period=");
    url.append(period);
    url
}

/// Federation uniqueness: under any pivot request on a bounded tree, every
/// node still has at most two children, and a node with exactly one child
/// is chosen before any other.
pub proof fn lemma_federation_uniqueness(cs: Seq<ClientPivot>, i: int)
    requires
        fanout_bounded(cs),
        0 <= i < cs.len(),
        cs[i].refcount == 1,
    ensures
        pivot_target(cs) >= 0,
        cs[pivot_target(cs)].refcount == 1,
{
    lemma_first_scans(cs);
}


/// Path pieces joined back with a separator.
pub open spec fn joined(parts: Seq<Seq<char>>, sep: char) -> Seq<char>
    decreases parts.len(),
{
    if parts.len() == 0 {
        Seq::empty()
    } else if parts.len() == 1 {
        parts[0]
    } else {
        joined(parts.drop_last(), sep) + seq![sep] + parts.last()
    }
}

/// Join path pieces with a separator.
pub fn join_parts(parts: &Vec<String>, upto: usize, sep: char) -> (r: String)
    requires
        upto <= parts@.len(),
    ensures
        r@ == joined(parts@.map_values(|p: String| p@).take(upto as int), sep),
{
    let ghost pview = parts@.map_values(|p: String| p@);
    let mut out = String::new();
    let mut i: usize = 0;
    proof {
        assert(pview.take(0) =~= Seq::<Seq<char>>::empty());
    }
    while i < upto
        invariant
            upto <= parts@.len(),
            pview == parts@.map_values(|p: String| p@),
            0 <= i <= upto,
            out@ == joined(pview.take(i as int), sep),
        decreases upto - i,
    {
        if i > 0 {
            push_sep(&mut out, sep);
        }
        out.append(parts[i].as_str());
        proof {
            let t1 = pview.take(i + 1 as int);
            assert(t1.drop_last() =~= pview.take(i as int));
            assert(t1.last() == pview[i as int]);
            assert(pview[i as int] == parts@[i as int]@);
            if i == 0 {
                assert(out@ =~= joined(t1, sep));
            } else {
                assert(out@ =~= joined(pview.take(i as int), sep) + seq![sep] + pview[i as int]);
            }
        }
        i = i + 1;
    }
    out
}

/// One character appended, through the codec's shared append.
fn push_sep(s: &mut String, c: char)
    ensures
        final(s)@ == old(s)@ + seq![c],
{
    crate::trace_codec::push_char(s, c);
}

/// Split a request path into its routing prefix and its final resource:
/// the whole first segment with an empty resource for a one-segment path,
/// the bare root for the root path.
pub fn parse_url(surl: &str) -> (r: (String, String))
    requires
        surl@.len() > 0,
        surl@[0] == '/',
    ensures
        ({
            let path = surl@.skip(1);
            let segments = crate::squeue::split_on(path, '/');
            if path.len() == 0 {
                r.0@ == "/"@ && r.1@.len() == 0
            } else if segments.len() == 1 {
                r.0@ == segments[0] && r.1@.len() == 0
            } else {
                r.0@ == joined(segments.drop_last(), '/') && r.1@ == segments.last()
            }
        }),
{
    let n = surl.unicode_len();
    let url = surl.substring_char(1, n);
    if url.unicode_len() == 0 {
        proof {
            reveal_strlit("/");
        }
        return (String::from_str("/"), String::new());
    }
    let segments = crate::squeue::str_split(url, '/');
    let ghost sview = crate::squeue::split_on(url@, '/');
    proof {
        if crate::names::contains_char(url@, '/') {
            assert(sview.len() >= 1);
        } else {
            assert(sview =~= seq![url@]);
        }
        assert(segments@.len() == sview.len());
    }
    if segments.len() == 1 {
        proof {
            assert(segments@.map_values(|p: String| p@)[0] == segments@[0]@);
        }
        let first = segments[0].clone();
        (first, String::new())
    } else {
        let prefix = join_parts(&segments, segments.len() - 1, '/');
        let last = segments[segments.len() - 1].clone();
        proof {
            let pview = segments@.map_values(|p: String| p@);
            assert(pview.take(segments@.len() - 1) =~= sview.drop_last());
            assert(pview[segments@.len() - 1] == segments@[segments@.len() - 1]@);
            assert(sview.last() == pview[segments@.len() - 1]);
        }
        (prefix, last)
    }
}

} // verus!
