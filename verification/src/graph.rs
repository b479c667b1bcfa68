//! A whole graph in one place.

use crate::counting;
use crate::rows;
use crate::text;
use vstd::prelude::*;
use vstd::string::*;

verus! {

/// An undirected graph: the neighbors of every node, and the number of edges.
#[derive(Debug, Clone)]
pub struct Graph {
    pub adjacency: Vec<Vec<usize>>,
    pub edge_count: usize,
}

/// What rewiring did.
#[derive(Debug, Clone, Copy, PartialEq, Eq, Structural)]
pub struct RewireStats {
    pub considered_edges: usize,
    pub rewired_edges: usize,
    pub cross_partition_updates: usize,
    pub partitions: usize,
}

/// Distances summed over pairs of a source and a node that it reaches. The mean
/// distance is their quotient, and zero where there is no such pair.
#[derive(Debug, Clone, Copy, PartialEq, Eq, Structural)]
pub struct PathEstimate {
    pub distance_sum: u64,
    pub reachable_pairs: u64,
}

/// Why a graph cannot be generated.
#[derive(Debug, Clone, Copy, PartialEq, Eq, Structural)]
pub enum GraphError {
    InvalidNodeCount,
    InvalidDegree,
    InvalidProbability,
    InvalidPartitionCount,
}

impl GraphError {
    /// The error in words.
    pub open spec fn text(self) -> Seq<char> {
        match self {
            GraphError::InvalidNodeCount => "N must be at least 3"@,
            GraphError::InvalidDegree => "K must be even and satisfy 2 <= K < N"@,
            GraphError::InvalidProbability => "p must be in [0, 1]"@,
            GraphError::InvalidPartitionCount => "partitions must be at least 1"@,
        }
    }

    /// The error in words.
    pub fn message(&self) -> (message: String)
        ensures
            message@ == self.text(),
            message@ == match *self {
                GraphError::InvalidNodeCount => "N must be at least 3"@,
                GraphError::InvalidDegree => "K must be even and satisfy 2 <= K < N"@,
                GraphError::InvalidProbability => "p must be in [0, 1]"@,
                GraphError::InvalidPartitionCount => "partitions must be at least 1"@,
            },
    {
        match self {
            GraphError::InvalidNodeCount => "N must be at least 3".to_owned(),
            GraphError::InvalidDegree => "K must be even and satisfy 2 <= K < N".to_owned(),
            GraphError::InvalidProbability => "p must be in [0, 1]".to_owned(),
            GraphError::InvalidPartitionCount => "partitions must be at least 1".to_owned(),
        }
    }
}

/// The row is strictly ascending.
pub open spec fn ascending(row: Seq<usize>) -> bool {
    forall|i: int, j: int| 0 <= i < j < row.len() ==> row[i] < row[j]
}

/// The neighbors ascend, are nodes, do not hold the node itself, and hold it in
/// their own rows.
pub open spec fn sound_row(rows: Seq<Seq<usize>>, u: int) -> bool {
    &&& ascending(rows[u])
    &&& forall|j: int|
        0 <= j < rows[u].len() ==> {
            let v = #[trigger] rows[u][j];
            v < rows.len() && v != u && rows[v as int].contains(u as usize)
        }
}

/// The rows are those of a simple undirected graph.
pub open spec fn simple(rows: Seq<Seq<usize>>) -> bool {
    forall|u: int| 0 <= u < rows.len() ==> #[trigger] sound_row(rows, u)
}

/// What is said of a row out of order.
pub open spec fn unsorted_text(u: nat) -> Seq<char> {
    "adjacency list "@ + text::decimal(u) + " is not strictly sorted"@
}

/// What is said of an edge that leads nowhere.
pub open spec fn endpoint_text(u: nat, v: nat) -> Seq<char> {
    "edge ("@ + text::decimal(u) + ", "@ + text::decimal(v) + ") has an invalid endpoint"@
}

/// What is said of a node that is its own neighbor.
pub open spec fn loop_text(u: nat) -> Seq<char> {
    "self-loop at node "@ + text::decimal(u)
}

/// What is said of an edge that is known at one end only.
pub open spec fn asymmetric_text(u: nat, v: nat) -> Seq<char> {
    "edge ("@ + text::decimal(u) + ", "@ + text::decimal(v) + ") is not symmetric"@
}

/// What is said of a wrong edge count.
pub open spec fn count_text() -> Seq<char> {
    "stored edge count does not match adjacency lists"@
}

/// Entry `j` of row `u` gives no cause for complaint. A row out of order may
/// hide that it holds `u`.
pub open spec fn passes(rows: Seq<Seq<usize>>, u: int, j: int) -> bool {
    let v = rows[u][j];
    v < rows.len() && v != u && (ascending(rows[v as int]) ==> rows[v as int].contains(
        u as usize,
    ))
}

/// What is said of entry `j` of row `u`.
pub open spec fn entry_text(rows: Seq<Seq<usize>>, u: int, j: int) -> Seq<char> {
    let v = rows[u][j];
    if v >= rows.len() {
        endpoint_text(u as nat, v as nat)
    } else if v == u {
        loop_text(u as nat)
    } else {
        asymmetric_text(u as nat, v as nat)
    }
}

/// Entry `j` of row `u` is the first to give cause for complaint.
pub open spec fn first_bad_entry(rows: Seq<Seq<usize>>, u: int, j: int) -> bool {
    &&& 0 <= u < rows.len()
    &&& rows_pass(rows, u)
    &&& ascending(rows[u])
    &&& 0 <= j < rows[u].len()
    &&& forall|i: int| 0 <= i < j ==> #[trigger] passes(rows, u, i)
    &&& {
        let v = rows[u][j];
        v >= rows.len() || v == u || !ascending(rows[v as int]) || !rows[v as int].contains(
            u as usize,
        )
    }
}

/// Row `u` is the first to give cause for complaint, being out of order.
pub open spec fn first_unsorted(rows: Seq<Seq<usize>>, u: int) -> bool {
    0 <= u < rows.len() && rows_pass(rows, u) && !ascending(rows[u])
}

/// The rows before `end` are in order and their entries pass.
pub open spec fn rows_pass(rows: Seq<Seq<usize>>, end: int) -> bool {
    forall|u: int, j: int|
        0 <= u < end && 0 <= j < rows[u].len() ==> ascending(rows[u]) && #[trigger] passes(
            rows,
            u,
            j,
        )
}

/// The message is about an entry, the first to give cause for complaint.
pub open spec fn entry_refused(rows: Seq<Seq<usize>>, message: Seq<char>) -> bool {
    exists|u: int, j: int| #[trigger]
        first_bad_entry(rows, u, j) && message == entry_text(rows, u, j)
}

/// The message is about a row out of order, the first to give cause for complaint.
pub open spec fn row_refused(rows: Seq<Seq<usize>>, message: Seq<char>) -> bool {
    exists|u: int| #[trigger] first_unsorted(rows, u) && message == unsorted_text(u as nat)
}

/// Ascending rows with the same nodes are the same.
pub proof fn lemma_ascending_unique(a: Seq<usize>, b: Seq<usize>)
    requires
        ascending(a),
        ascending(b),
        forall|x: usize| a.contains(x) <==> b.contains(x),
    ensures
        a == b,
    decreases a.len(),
{
    if a.len() == 0 {
        if b.len() > 0 {
            assert(b.contains(b[0]));
        }
        assert(a =~= b);
    } else if b.len() == 0 {
        assert(a.contains(a[0]));
    } else {
        let x = a.last();
        let y = b.last();
        assert(a.contains(x) && b.contains(y)) by {
            assert(a[a.len() - 1] == x);
            assert(b[b.len() - 1] == y);
        }
        assert(x == y) by {
            assert(b.contains(x));
            assert(a.contains(y));
            let i = choose|i: int| 0 <= i < b.len() && b[i] == x;
            let j = choose|j: int| 0 <= j < a.len() && a[j] == y;
            if i < b.len() - 1 {
                assert(b[i] < b[b.len() - 1]);
            }
            if j < a.len() - 1 {
                assert(a[j] < a[a.len() - 1]);
            }
        }
        let c = a.drop_last();
        let d = b.drop_last();
        assert forall|z: usize| c.contains(z) <==> d.contains(z) by {
            if c.contains(z) {
                let i = choose|i: int| 0 <= i < c.len() && c[i] == z;
                assert(a[i] < a[a.len() - 1]);
                assert(a.contains(z) && b.contains(z));
                let j = choose|j: int| 0 <= j < b.len() && b[j] == z;
                assert(d[j] == z);
            }
            if d.contains(z) {
                let i = choose|i: int| 0 <= i < d.len() && d[i] == z;
                assert(b[i] < b[b.len() - 1]);
                assert(b.contains(z) && a.contains(z));
                let j = choose|j: int| 0 <= j < a.len() && a[j] == z;
                assert(c[j] == z);
            }
        }
        lemma_ascending_unique(c, d);
        assert(a =~= c.push(x));
        assert(b =~= d.push(y));
    }
}

/// Whether a node stands in a row; certain only in an ascending row.
pub fn find(row: &[usize], node: usize) -> (found: bool)
    ensures
        found ==> row@.contains(node),
        ascending(row@) ==> found == row@.contains(node),
{
    let mut low: usize = 0;
    let mut high: usize = row.len();
    while low < high
        invariant
            low <= high <= row@.len(),
            ascending(row@) ==> forall|i: int| 0 <= i < low ==> row@[i] < node,
            ascending(row@) ==> forall|i: int| high <= i < row@.len() ==> row@[i] > node,
        decreases high - low,
    {
        let middle: usize = low + (high - low) / 2;
        let value: usize = row[middle];
        if value == node {
            return true;
        }
        if value < node {
            low = middle + 1;
        } else {
            high = middle;
        }
    }
    false
}

impl Graph {
    /// The rows of neighbors.
    pub open spec fn rows(&self) -> Seq<Seq<usize>> {
        rows::seqs(self.adjacency@)
    }

    /// A simple undirected graph with the right number of edges.
    pub open spec fn sound(&self) -> bool {
        simple(self.rows()) && rows::total(self.rows()) == 2 * self.edge_count
    }

    /// The links of the graph.
    pub open spec fn link(&self) -> spec_fn(int, int) -> bool {
        |u: int, v: int|
            0 <= u < self.rows().len() && 0 <= v <= usize::MAX && self.rows()[u].contains(
                v as usize,
            )
    }

    /// Every neighbor is a node.
    pub open spec fn in_range(&self) -> bool {
        forall|u: int, j: int|
            0 <= u < self.rows().len() && 0 <= j < self.rows()[u].len()
                ==> #[trigger] self.rows()[u][j] < self.rows().len()
    }

    /// Every row ascends.
    pub open spec fn ordered(&self) -> bool {
        forall|u: int| 0 <= u < self.rows().len() ==> ascending(#[trigger] self.rows()[u])
    }

    /// The number of nodes.
    pub fn node_count(&self) -> (count: usize)
        ensures
            count == self.rows().len(),
            count == self.adjacency@.len(),
    {
        self.adjacency.len()
    }

    /// The number of edges.
    pub fn edge_count(&self) -> (count: usize)
        ensures
            count == self.edge_count,
    {
        self.edge_count
    }

    /// The number of neighbors of a node.
    pub fn degree(&self, node: usize) -> (degree: usize)
        requires
            node < self.rows().len(),
        ensures
            degree == self.rows()[node as int].len(),
            degree == self.adjacency@[node as int]@.len(),
    {
        self.adjacency[node].len()
    }

    /// The neighbors of a node.
    pub fn neighbors(&self, node: usize) -> (neighbors: &[usize])
        requires
            node < self.rows().len(),
        ensures
            neighbors@ == self.rows()[node as int],
            neighbors@ == self.adjacency@[node as int]@,
    {
        self.adjacency[node].as_slice()
    }

    /// Whether `v` is a neighbor of `u`. Certain where the row of `u` ascends.
    pub fn has_edge(&self, u: usize, v: usize) -> (linked: bool)
        requires
            u < self.rows().len(),
        ensures
            linked ==> self.rows()[u as int].contains(v),
            ascending(self.rows()[u as int]) ==> linked == self.rows()[u as int].contains(v),
    {
        find(self.neighbors(u), v)
    }

    /// Whether the row ascends.
    fn is_ascending(row: &Vec<usize>) -> (sorted: bool)
        ensures
            sorted == ascending(row@),
    {
        let mut i: usize = 1;
        while i < row.len()
            invariant
                1 <= i,
                row@.len() > 0 ==> i <= row@.len(),
                forall|a: int, b: int| 0 <= a < b < i && b < row@.len() ==> row@[a] < row@[b],
            decreases row.len() - i,
        {
            if row[i - 1] >= row[i] {
                assert(row@[i - 1] >= row@[i as int]);
                return false;
            }
            assert forall|a: int| 0 <= a < i implies row@[a] < row@[i as int] by {
                if a < i - 1 {
                    assert(row@[a] < row@[i - 1]);
                }
            }
            i = i + 1;
        }
        true
    }

    /// Checks that this is a simple undirected graph with the right number of
    /// edges, and says what is wrong first where it is not.
    pub fn validate(&self) -> (verdict: Result<(), String>)
        ensures
            verdict is Ok <==> self.sound(),
            verdict is Err ==> {
                let message = verdict->Err_0@;
                ||| row_refused(self.rows(), message)
                ||| entry_refused(self.rows(), message)
                ||| simple(self.rows()) && message == count_text()
            },
    {
        let ghost rows = self.rows();
        let n: usize = self.node_count();
        let mut degree_sum: u128 = 0;
        let mut u: usize = 0;
        assert(rows.take(0) =~= Seq::empty());
        while u < n
            invariant
                rows == self.rows(),
                n == rows.len(),
                u <= n,
                rows_pass(rows, u as int),
                forall|i: int| 0 <= i < u ==> ascending(#[trigger] rows[i]),
                forall|i: int, j: int|
                    0 <= i < u && 0 <= j < rows[i].len() ==> {
                        let v = #[trigger] rows[i][j];
                        v < n && v != i && rows[v as int].contains(i as usize)
                    },
                degree_sum == rows::total(rows.take(u as int)),
                degree_sum <= u * usize::MAX,
            decreases n - u,
        {
            let neighbors = &self.adjacency[u];
            assert(neighbors@ == rows[u as int]);
            if !Self::is_ascending(neighbors) {
                let message = text::numbered(
                    "adjacency list ",
                    u as u64,
                    " is not strictly sorted",
                );
                proof {
                    assert(first_unsorted(rows, u as int));
                    assert(row_refused(rows, message@));
                    assert(!sound_row(rows, u as int));
                }
                return Err(message);
            }
            let size: usize = neighbors.len();
            let mut j: usize = 0;
            while j < size
                invariant
                    rows == self.rows(),
                    n == rows.len(),
                    u < n,
                    neighbors@ == rows[u as int],
                    size == neighbors@.len(),
                    j <= size,
                    rows_pass(rows, u as int),
                    ascending(rows[u as int]),
                    forall|i: int| 0 <= i < j ==> #[trigger] passes(rows, u as int, i),
                    forall|i: int|
                        0 <= i < j ==> {
                            let v = #[trigger] rows[u as int][i];
                            v < n && v != u && rows[v as int].contains(u)
                        },
                decreases size - j,
            {
                let v: usize = neighbors[j];
                assert(v == rows[u as int][j as int]);
                let sound = v < n && u != v && self.has_edge(v, u);
                if !sound {
                    let message = self.complaint(u, v);
                    proof {
                        assert(first_bad_entry(rows, u as int, j as int));
                        assert(entry_refused(rows, message@));
                        if simple(rows) {
                            assert(sound_row(rows, u as int));
                            assert(rows[u as int][j as int] == v);
                            assert(sound_row(rows, v as int));
                        }
                    }
                    return Err(message);
                }
                assert(passes(rows, u as int, j as int));
                j = j + 1;
            }
            proof {
                let longer = rows.take(u + 1);
                assert(longer =~= rows.take(u as int).push(rows[u as int]));
                rows::lemma_total_push(rows.take(u as int), rows[u as int]);
                assert((u + 1) * usize::MAX == u * usize::MAX + usize::MAX) by (nonlinear_arith);
                assert((u + 1) * usize::MAX <= usize::MAX * usize::MAX) by (nonlinear_arith)
                    requires
                        u + 1 <= usize::MAX,
                ;
                assert(usize::MAX * usize::MAX <= u128::MAX) by (nonlinear_arith)
                    requires
                        usize::MAX <= u64::MAX,
                        u64::MAX * u64::MAX <= u128::MAX,
                ;
            }
            degree_sum = degree_sum + size as u128;
            u = u + 1;
        }
        proof {
            assert(rows.take(u as int) =~= rows);
            assert forall|i: int| 0 <= i < rows.len() implies #[trigger] sound_row(rows, i) by {
                assert(ascending(rows[i]));
            }
        }
        if degree_sum % 2 != 0 || degree_sum / 2 != self.edge_count as u128 {
            return Err("stored edge count does not match adjacency lists".to_owned());
        }
        Ok(())
    }

    /// What is wrong with an entry.
    fn complaint(&self, u: usize, v: usize) -> (message: String)
        ensures
            message@ == if v >= self.rows().len() {
                endpoint_text(u as nat, v as nat)
            } else if v == u {
                loop_text(u as nat)
            } else {
                asymmetric_text(u as nat, v as nat)
            },
    {
        if v < self.node_count() && u == v {
            let mut message = "self-loop at node ".to_owned();
            text::push_decimal(&mut message, u as u64);
            return message;
        }
        let mut message = text::numbered("edge (", u as u64, ", ");
        text::push_decimal(&mut message, v as u64);
        if v >= self.node_count() {
            message.append(") has an invalid endpoint");
        } else {
            message.append(") is not symmetric");
        }
        message
    }
}

/// What is said of a graph that is not sound.
pub proof fn lemma_words(u: nat, v: nat)
    ensures
        unsorted_text(u) == "adjacency list "@ + text::decimal(u) + " is not strictly sorted"@,
        endpoint_text(u, v) == "edge ("@ + text::decimal(u) + ", "@ + text::decimal(v)
            + ") has an invalid endpoint"@,
        loop_text(u) == "self-loop at node "@ + text::decimal(u),
        asymmetric_text(u, v) == "edge ("@ + text::decimal(u) + ", "@ + text::decimal(v)
            + ") is not symmetric"@,
        count_text() == "stored edge count does not match adjacency lists"@,
{
}

/// A graph is sound if and only if every row ascends, holds nodes other than its own,
/// each of which holds its node in turn, and the rows have two entries for every
/// edge that is counted.
#[verifier::rlimit(60)]
pub proof fn lemma_sound(graph: &Graph)
    ensures
        graph.sound() <==> {
            &&& forall|u: int, a: int, b: int|
                0 <= u < graph.adjacency@.len() && 0 <= a < b < graph.adjacency@[u]@.len()
                    ==> #[trigger] graph.adjacency@[u]@[a] < #[trigger] graph.adjacency@[u]@[b]
            &&& forall|u: int, j: int|
                0 <= u < graph.adjacency@.len() && 0 <= j < graph.adjacency@[u]@.len() ==> {
                    let v = #[trigger] graph.adjacency@[u]@[j];
                    &&& v < graph.adjacency@.len()
                    &&& v != u
                    &&& graph.adjacency@[v as int]@.contains(u as usize)
                }
            &&& counting::sum(
                |u: int| graph.adjacency@[u]@.len(),
                graph.adjacency@.len(),
            ) == 2 * graph.edge_count
        },
{
    let all = graph.rows();
    rows::lemma_lengths(all);
    counting::lemma_same_sum(
        |u: int| all[u].len(),
        |u: int| graph.adjacency@[u]@.len(),
        all.len(),
    );
    if simple(all) {
        assert forall|u: int, a: int, b: int|
            0 <= u < graph.adjacency@.len() && 0 <= a < b < graph.adjacency@[u]@.len() implies
            #[trigger] graph.adjacency@[u]@[a] < #[trigger] graph.adjacency@[u]@[b] by {
            assert(sound_row(all, u));
            assert(all[u][a] < all[u][b]);
        }
        assert forall|u: int, j: int|
            0 <= u < graph.adjacency@.len() && 0 <= j < graph.adjacency@[u]@.len() implies {
            let v = #[trigger] graph.adjacency@[u]@[j];
            &&& v < graph.adjacency@.len()
            &&& v != u
            &&& graph.adjacency@[v as int]@.contains(u as usize)
        } by {
            assert(sound_row(all, u));
            assert(all[u][j] == graph.adjacency@[u]@[j]);
        }
    }
    if (forall|u: int, a: int, b: int|
        0 <= u < graph.adjacency@.len() && 0 <= a < b < graph.adjacency@[u]@.len()
            ==> #[trigger] graph.adjacency@[u]@[a] < #[trigger] graph.adjacency@[u]@[b])
        && (forall|u: int, j: int|
        0 <= u < graph.adjacency@.len() && 0 <= j < graph.adjacency@[u]@.len() ==> {
            let v = #[trigger] graph.adjacency@[u]@[j];
            &&& v < graph.adjacency@.len()
            &&& v != u
            &&& graph.adjacency@[v as int]@.contains(u as usize)
        }) {
        assert forall|u: int| 0 <= u < all.len() implies #[trigger] sound_row(all, u) by {
            assert forall|a: int, b: int| 0 <= a < b < all[u].len() implies all[u][a]
                < all[u][b] by {
                assert(graph.adjacency@[u]@[a] < graph.adjacency@[u]@[b]);
            }
            assert forall|j: int| 0 <= j < all[u].len() implies {
                let v = #[trigger] all[u][j];
                v < all.len() && v != u && all[v as int].contains(u as usize)
            } by {
                assert(graph.adjacency@[u]@[j] == all[u][j]);
            }
        }
    }
}

} // verus!
