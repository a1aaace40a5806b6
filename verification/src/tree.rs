//! A license tree: a sequence of numbers encodes a tree in preorder.
//! Each node is a child count, a metadata count, the encodings of its
//! children, then its metadata entries.
//!
//! The grammar is specified twice over: [`node_end`] gives the
//! position where the node starting at a position ends, if the data
//! parses at all, and [`parses_to`] says that a concrete [`Node`] is
//! what a well-formed encoding denotes.

use vstd::prelude::*;

verus! {

/// A node of the license tree.
#[derive(Debug)]
pub struct Node {
    pub children: Vec<Node>,
    pub metadata: Vec<u32>,
}

/// Why a tree failed to parse.
#[derive(Clone, Copy, Debug, PartialEq, Eq, Structural)]
pub enum TreeError {
    /// The data ended in the middle of a node.
    UnexpectedEnd,
    /// Numbers were left over after the root node.
    TrailingData,
    /// The text was not a space-separated list of numbers.
    BadNumber,
}

/// Where the node encoded at `pos` ends, or `None` if no node starts
/// there.
pub open spec fn node_end(data: Seq<u32>, pos: int) -> Option<int>
    decreases data.len() - pos, 0int,
{
    if !(0 <= pos && pos + 2 <= data.len()) {
        None
    } else {
        let nc = data[pos] as int;
        let nm = data[pos + 1] as int;
        match children_end(data, pos + 2, nc) {
            None => None,
            Some(p) => if p + nm <= data.len() {
                Some(p + nm)
            } else {
                None
            },
        }
    }
}

/// Where `k` consecutive node encodings starting at `pos` end.
pub open spec fn children_end(data: Seq<u32>, pos: int, k: int) -> Option<int>
    decreases data.len() - pos, k + 1,
{
    if k <= 0 {
        Some(pos)
    } else if !(0 <= pos && pos + 2 <= data.len()) {
        None
    } else {
        match node_end(data, pos) {
            None => None,
            Some(p) => if pos < p && p <= data.len() {
                children_end(data, p, k - 1)
            } else {
                None
            },
        }
    }
}

/// The node `n` is what the encoding starting at `pos` denotes, and
/// that encoding ends at `end`.
pub open spec fn parses_to(data: Seq<u32>, pos: int, n: Node, end: int) -> bool
    decreases n, n.children@.len() + 1,
{
    &&& 0 <= pos
    &&& pos + 2 <= data.len()
    &&& data[pos] as int == n.children@.len()
    &&& data[pos + 1] as int == n.metadata@.len()
    &&& match children_end(data, pos + 2, data[pos] as int) {
        None => false,
        Some(p) => seq_parses_to(data, pos + 2, n.children@, p) && end == p
            + n.metadata@.len() && end <= data.len() && n.metadata@ == data.subrange(p, end),
    }
}

/// The nodes of `cs`, in order, are what the consecutive encodings
/// from `pos` to `end` denote.
pub open spec fn seq_parses_to(data: Seq<u32>, pos: int, cs: Seq<Node>, end: int) -> bool
    decreases cs,
{
    if cs.len() == 0 {
        end == pos
    } else {
        match node_end(data, pos) {
            None => false,
            Some(mid) => parses_to(data, pos, cs[0], mid) && seq_parses_to(
                data,
                mid,
                cs.drop_first(),
                end,
            ),
        }
    }
}

/// A parsed node ends exactly where the grammar skeleton says.
proof fn lemma_parses_to_node_end(data: Seq<u32>, pos: int, n: Node, end: int)
    requires
        parses_to(data, pos, n, end),
    ensures
        node_end(data, pos) == Some(end),
{
}

/// Extends a run of parsed children by one more node on the right.
proof fn lemma_seq_parses_push(data: Seq<u32>, pos: int, cs: Seq<Node>, mid: int, n: Node, end: int)
    requires
        seq_parses_to(data, pos, cs, mid),
        parses_to(data, mid, n, end),
    ensures
        seq_parses_to(data, pos, cs.push(n), end),
    decreases cs.len(),
{
    lemma_parses_to_node_end(data, mid, n, end);
    if cs.len() == 0 {
        assert(cs.push(n)[0] == n);
        assert(cs.push(n).drop_first() =~= Seq::<Node>::empty());
        assert(seq_parses_to(data, end, cs.push(n).drop_first(), end));
    } else {
        let m = node_end(data, pos)->Some_0;
        lemma_seq_parses_push(data, m, cs.drop_first(), mid, n, end);
        assert(cs.push(n)[0] == cs[0]);
        assert(cs.push(n).drop_first() =~= cs.drop_first().push(n));
    }
}

impl Node {
    /// Parses the node encoded at `pos`: the node and the position
    /// just past it, or `UnexpectedEnd` exactly when no node is
    /// encoded there.
    pub fn parse(data: &[u32], pos: usize) -> (r: Result<(Node, usize), TreeError>)
        requires
            pos <= data@.len(),
        ensures
            r matches Ok(p) ==> node_end(data@, pos as int) == Some(p.1 as int) && parses_to(
                data@,
                pos as int,
                p.0,
                p.1 as int,
            ) && pos + 2 <= p.1 <= data@.len(),
            r is Err ==> r == Err::<(Node, usize), TreeError>(TreeError::UnexpectedEnd)
                && node_end(data@, pos as int) == None::<int>,
        decreases data@.len() - pos,
    {
        let len = data.len();
        if len < 2 || pos > len - 2 {
            return Err(TreeError::UnexpectedEnd);
        }
        let nc = data[pos];
        let nm_raw = data[pos + 1];
        let mut children: Vec<Node> = Vec::new();
        let mut cur = pos + 2;
        let mut c: u32 = 0;
        while c < nc
            invariant
                pos + 2 <= cur <= data@.len() == len,
                c <= nc,
                nc == data@[pos as int],
                nm_raw == data@[pos as int + 1],
                children@.len() == c,
                seq_parses_to(data@, pos + 2, children@, cur as int),
                children_end(data@, pos + 2, nc as int) == children_end(
                    data@,
                    cur as int,
                    nc - c,
                ),
            decreases nc - c,
        {
            let ghost pre_children = children@;
            match Self::parse(data, cur) {
                Ok((child, tail)) => {
                    proof {
                        lemma_seq_parses_push(
                            data@,
                            pos + 2,
                            children@,
                            cur as int,
                            child,
                            tail as int,
                        );
                        assert(children_end(data@, cur as int, nc - c) == children_end(
                            data@,
                            tail as int,
                            nc - c - 1,
                        ));
                    }
                    children.push(child);
                    proof {
                        assert(children@ =~= pre_children.push(child));
                    }
                    cur = tail;
                }
                Err(_) => {
                    proof {
                        assert(children_end(data@, cur as int, nc - c) == None::<int>);
                        assert(node_end(data@, pos as int) == None::<int>);
                    }
                    return Err(TreeError::UnexpectedEnd);
                }
            }
            c = c + 1;
        }
        proof {
            assert(children_end(data@, cur as int, 0) == Some(cur as int));
        }
        let nm = nm_raw as usize;
        if len - cur < nm {
            proof {
                assert(node_end(data@, pos as int) == None::<int>);
            }
            return Err(TreeError::UnexpectedEnd);
        }
        let mut metadata: Vec<u32> = Vec::new();
        let mut t: usize = 0;
        while t < nm
            invariant
                t <= nm,
                cur + nm <= data@.len() == len,
                metadata@.len() == t,
                forall|q: int| 0 <= q < t ==> #[trigger] metadata@[q] == data@[cur + q],
            decreases nm - t,
        {
            metadata.push(data[cur + t]);
            t = t + 1;
        }
        let end = cur + nm;
        let node = Node { children, metadata };
        proof {
            assert(node.metadata@ =~= data@.subrange(cur as int, end as int));
            assert(node_end(data@, pos as int) == Some(end as int));
            assert(seq_parses_to(data@, pos + 2, node.children@, cur as int) && end == cur
                + node.metadata@.len() && end <= data@.len() && node.metadata@ == data@.subrange(
                cur as int,
                end as int,
            ));
            assert(parses_to(data@, pos as int, node, end as int));
        }
        Ok((node, end))
    }
}

/// The sum of the metadata entries from index `k` on.
pub open spec fn meta_sum_from(s: Seq<u32>, k: int) -> int
    decreases s.len() - k,
{
    if 0 <= k < s.len() {
        s[k] + meta_sum_from(s, k + 1)
    } else {
        0
    }
}

/// The sum of all metadata entries in the subtree rooted at `n`.
pub open spec fn spec_sum_metadata(n: Node) -> int
    decreases n, n.children@.len() + 1,
{
    children_meta_sum(n.children@, 0) + meta_sum_from(n.metadata@, 0)
}

/// The metadata sums of the children from index `k` on.
pub open spec fn children_meta_sum(cs: Seq<Node>, k: int) -> int
    decreases cs, cs.len() - k,
{
    if 0 <= k < cs.len() {
        spec_sum_metadata(cs[k]) + children_meta_sum(cs, k + 1)
    } else {
        0
    }
}

/// The value of the node `n`: the sum of its metadata if it has no
/// children, else the sum of the values of the children its metadata
/// entries name, entries naming no child counting zero.
pub open spec fn spec_value(n: Node) -> int
    decreases n, n.metadata@.len() + 1,
{
    if n.children@.len() == 0 {
        meta_sum_from(n.metadata@, 0)
    } else {
        value_sum(n, 0)
    }
}

/// The value contributions of the metadata entries from index `t` on.
pub open spec fn value_sum(n: Node, t: int) -> int
    decreases n, n.metadata@.len() - t,
{
    if 0 <= t < n.metadata@.len() {
        (if 1 <= n.metadata@[t] <= n.children@.len() {
            spec_value(n.children@[n.metadata@[t] - 1])
        } else {
            0
        }) + value_sum(n, t + 1)
    } else {
        0
    }
}

/// Metadata sums are sums of naturals.
proof fn lemma_meta_sum_nonneg(s: Seq<u32>, k: int)
    ensures
        meta_sum_from(s, k) >= 0,
        0 <= k < s.len() ==> s[k] <= meta_sum_from(s, k),
    decreases s.len() - k,
{
    if 0 <= k < s.len() {
        lemma_meta_sum_nonneg(s, k + 1);
    }
}

/// Subtree metadata sums are nonnegative.
proof fn lemma_sum_metadata_nonneg(n: Node)
    ensures
        spec_sum_metadata(n) >= 0,
    decreases n, n.children@.len() + 1,
{
    lemma_children_meta_sum_nonneg(n.children@, 0);
    lemma_meta_sum_nonneg(n.metadata@, 0);
}

/// Partial children sums are nonnegative.
proof fn lemma_children_meta_sum_nonneg(cs: Seq<Node>, k: int)
    ensures
        children_meta_sum(cs, k) >= 0,
    decreases cs, cs.len() - k,
{
    if 0 <= k < cs.len() {
        lemma_sum_metadata_nonneg(cs[k]);
        lemma_children_meta_sum_nonneg(cs, k + 1);
    }
}

/// Node values are nonnegative.
proof fn lemma_value_nonneg(n: Node)
    ensures
        spec_value(n) >= 0,
    decreases n, n.metadata@.len() + 1,
{
    if n.children@.len() == 0 {
        lemma_meta_sum_nonneg(n.metadata@, 0);
    } else {
        lemma_value_sum_nonneg(n, 0);
    }
}

/// Partial value sums are nonnegative.
proof fn lemma_value_sum_nonneg(n: Node, t: int)
    ensures
        value_sum(n, t) >= 0,
    decreases n, n.metadata@.len() - t,
{
    if 0 <= t < n.metadata@.len() {
        if 1 <= n.metadata@[t] <= n.children@.len() {
            lemma_value_nonneg(n.children@[n.metadata@[t] - 1]);
        }
        lemma_value_sum_nonneg(n, t + 1);
    }
}

impl Node {
    /// The sum of every metadata entry in this subtree.
    pub fn sum_metadata(&self) -> (r: u32)
        requires
            spec_sum_metadata(*self) <= u32::MAX,
        ensures
            r == spec_sum_metadata(*self),
        decreases *self,
    {
        proof {
            lemma_meta_sum_nonneg(self.metadata@, 0);
        }
        let mut total: u32 = 0;
        let nc = self.children.len();
        let mut c: usize = 0;
        while c < nc
            invariant
                c <= nc == self.children@.len(),
                spec_sum_metadata(*self) <= u32::MAX,
                meta_sum_from(self.metadata@, 0) >= 0,
                total == children_meta_sum(self.children@, 0) - children_meta_sum(
                    self.children@,
                    c as int,
                ),
            decreases nc - c,
        {
            proof {
                lemma_children_sum_split(self.children@, 0, c as int);
                lemma_sum_metadata_nonneg(self.children@[c as int]);
                lemma_children_meta_sum_nonneg(self.children@, c as int + 1);
            }
            total = total + self.children[c].sum_metadata();
            c = c + 1;
        }
        proof {
            lemma_children_sum_split(self.children@, 0, nc as int);
        }
        let nm = self.metadata.len();
        let mut t: usize = 0;
        while t < nm
            invariant
                t <= nm == self.metadata@.len(),
                spec_sum_metadata(*self) <= u32::MAX,
                total == spec_sum_metadata(*self) - meta_sum_from(self.metadata@, t as int),
            decreases nm - t,
        {
            proof {
                lemma_meta_sum_nonneg(self.metadata@, t as int);
                lemma_meta_sum_nonneg(self.metadata@, t as int + 1);
            }
            total = total + self.metadata[t];
            t = t + 1;
        }
        total
    }

    /// The value of this node.
    pub fn value(&self) -> (r: u32)
        requires
            spec_value(*self) <= u32::MAX,
        ensures
            r == spec_value(*self),
        decreases *self,
    {
        let mut total: u32 = 0;
        let nm = self.metadata.len();
        if self.children.len() == 0 {
            let mut t: usize = 0;
            while t < nm
                invariant
                    t <= nm == self.metadata@.len(),
                    self.children@.len() == 0,
                    spec_value(*self) <= u32::MAX,
                    total == spec_value(*self) - meta_sum_from(self.metadata@, t as int),
                decreases nm - t,
            {
                proof {
                    lemma_meta_sum_nonneg(self.metadata@, t as int);
                    lemma_meta_sum_nonneg(self.metadata@, t as int + 1);
                }
                total = total + self.metadata[t];
                t = t + 1;
            }
            total
        } else {
            let mut t: usize = 0;
            while t < nm
                invariant
                    t <= nm == self.metadata@.len(),
                    self.children@.len() > 0,
                    spec_value(*self) <= u32::MAX,
                    total == spec_value(*self) - value_sum(*self, t as int),
                decreases nm - t,
            {
                proof {
                    lemma_value_sum_nonneg(*self, t as int);
                    lemma_value_sum_nonneg(*self, t as int + 1);
                }
                let idx = self.metadata[t];
                if idx > 0 && (idx as usize) <= self.children.len() {
                    proof {
                        lemma_value_nonneg(self.children@[idx - 1]);
                    }
                    total = total + self.children[idx as usize - 1].value();
                } else {
                    proof {
                        assert(value_sum(*self, t as int) == value_sum(*self, t as int + 1));
                    }
                }
                t = t + 1;
            }
            total
        }
    }
}

/// A partial children sum splits off its first remaining child.
proof fn lemma_children_sum_split(cs: Seq<Node>, a: int, k: int)
    ensures
        0 <= k < cs.len() ==> children_meta_sum(cs, k) == spec_sum_metadata(cs[k])
            + children_meta_sum(cs, k + 1),
        k >= cs.len() || k < 0 ==> children_meta_sum(cs, k) == 0,
{
}

/// Folds the characters of a number list: `cur` is the value of the
/// digit run being read, `acc` the numbers read so far.  Yields the
/// full list of numbers, or `None` if the text is not a list of
/// space-separated numbers that fit in 32 bits, with no empty token.
pub open spec fn num_fold(s: Seq<char>, k: int, cur: Option<int>, acc: Seq<u32>) -> Option<
    Seq<u32>,
>
    decreases s.len() - k,
{
    if !(0 <= k < s.len()) {
        match cur {
            Some(v) => Some(acc.push(v as u32)),
            None => None,
        }
    } else {
        let c = s[k];
        if '0' <= c && c <= '9' {
            let d = c as int - 48;
            let v = match cur {
                None => d,
                Some(v0) => v0 * 10 + d,
            };
            if v <= u32::MAX {
                num_fold(s, k + 1, Some(v), acc)
            } else {
                None
            }
        } else if c == ' ' {
            match cur {
                Some(v) => num_fold(s, k + 1, None, acc.push(v as u32)),
                None => None,
            }
        } else {
            None
        }
    }
}

/// The numbers a space-separated list of decimals names, or `None` if
/// the text is not such a list.
pub open spec fn num_list(s: Seq<char>) -> Option<Seq<u32>> {
    num_fold(s, 0, None, Seq::empty())
}

/// A successful fold saw only digits and spaces from `k` on.
proof fn lemma_num_fold_chars(s: Seq<char>, k: int, cur: Option<int>, acc: Seq<u32>)
    requires
        0 <= k,
        num_fold(s, k, cur, acc) is Some,
    ensures
        forall|t: int|
            k <= t < s.len() ==> ('0' <= #[trigger] s[t] <= '9' || s[t] == ' '),
    decreases s.len() - k,
{
    if 0 <= k < s.len() {
        let c = s[k];
        if '0' <= c && c <= '9' {
            let d = c as int - 48;
            let v = match cur {
                None => d,
                Some(v0) => v0 * 10 + d,
            };
            if v <= u32::MAX {
                lemma_num_fold_chars(s, k + 1, Some(v), acc);
            }
        } else if c == ' ' {
            if cur is Some {
                lemma_num_fold_chars(s, k + 1, None, acc.push(cur->Some_0 as u32));
            }
        }
    }
}

/// The integer value an exec digit run carries, if any.
pub open spec fn opt_int(c: Option<u32>) -> Option<int> {
    match c {
        Some(v) => Some(v as int),
        None => None,
    }
}

/// Reads a space-separated list of 32-bit numbers, or reports
/// `BadNumber` exactly when the text is not such a list.
pub fn parse_numbers(s: &str) -> (r: Result<Vec<u32>, TreeError>)
    ensures
        r matches Ok(ds) ==> num_list(s@) == Some(ds@),
        r is Err ==> r == Err::<Vec<u32>, TreeError>(TreeError::BadNumber) && num_list(s@)
            == None::<Seq<u32>>,
{
    if !s.is_ascii() {
        proof {
            if num_list(s@) is Some {
                lemma_num_fold_chars(s@, 0, None, Seq::empty());
                assert(vstd::string::is_ascii(s));
            }
        }
        return Err(TreeError::BadNumber);
    }
    proof {
        broadcast use vstd::string::is_ascii_spec_bytes;

    }
    let bytes = s.as_bytes_vec();
    let n = bytes.len();
    let mut acc: Vec<u32> = Vec::new();
    let mut cur: Option<u32> = None;
    let mut k: usize = 0;
    while k < n
        invariant
            k <= n,
            n == bytes@.len() == s@.len(),
            forall|q: int| 0 <= q < n ==> #[trigger] bytes@[q] == s@[q] as u8,
            vstd::string::is_ascii(s),
            num_list(s@) == num_fold(s@, k as int, opt_int(cur), acc@),
        decreases n - k,
    {
        let b = bytes[k];
        proof {
            assert((s@[k as int] as int) < 128);
            assert(b as int == s@[k as int] as int);
        }
        if b >= 48 && b <= 57 {
            let d = (b - 48) as u32;
            let v64 = match cur {
                None => d as u64,
                Some(v0) => v0 as u64 * 10 + d as u64,
            };
            if v64 > u32::MAX as u64 {
                return Err(TreeError::BadNumber);
            }
            cur = Some(v64 as u32);
        } else if b == 32 {
            match cur {
                Some(v) => {
                    acc.push(v);
                    cur = None;
                }
                None => {
                    return Err(TreeError::BadNumber);
                }
            }
        } else {
            return Err(TreeError::BadNumber);
        }
        k = k + 1;
    }
    match cur {
        Some(v) => {
            acc.push(v);
            Ok(acc)
        }
        None => Err(TreeError::BadNumber),
    }
}

impl Node {
    /// Parses a whole tree from a space-separated list of numbers:
    /// the text must be such a list, the list must encode a node, and
    /// nothing may follow the root node's encoding.
    pub fn from_string(s: &str) -> (r: Result<Node, TreeError>)
        ensures
            num_list(s@) == None::<Seq<u32>> ==> r == Err::<Node, TreeError>(
                TreeError::BadNumber,
            ),
            num_list(s@) matches Some(ds) && node_end(ds, 0) == None::<int> ==> r == Err::<
                Node,
                TreeError,
            >(TreeError::UnexpectedEnd),
            num_list(s@) matches Some(ds) && node_end(ds, 0) matches Some(e) && e < ds.len()
                ==> r == Err::<Node, TreeError>(TreeError::TrailingData),
            num_list(s@) matches Some(ds) ==> (node_end(ds, 0) == Some(ds.len() as int) ==> (
            r matches Ok(n) && parses_to(ds, 0, n, ds.len() as int))),
    {
        match parse_numbers(s) {
            Err(e) => Err(e),
            Ok(data) => {
                match Node::parse(data.as_slice(), 0) {
                    Err(e) => Err(e),
                    Ok((node, end)) => {
                        if end < data.len() {
                            Err(TreeError::TrailingData)
                        } else {
                            Ok(node)
                        }
                    }
                }
            }
        }
    }
}

} // verus!
