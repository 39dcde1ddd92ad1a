//! The streaming folded-stack profiler: a shadow call stack over the guest's
//! functions and a trie of call paths with an instruction count per path.

use std::collections::HashMap;
use vstd::prelude::*;

use crate::symbols::{
    ElfSymbol, check_ranges, elf_symbol_table, profiled_functions, ranges_fit, read_elf_symbols,
    text_functions,
};
use crate::folded::{folded_line, folded_lines, folded_text, frames_text, push_bytes, push_decimal};
use crate::laws::{
    lemma_count_le_sum, lemma_count_sum_update, lemma_deepest_covering_bound, lemma_moved_wf,
    lemma_step_preserves_wf,
};

verus! {

/// The function index of the trie's root, which stands for no function.
pub const NO_FUNCTION: usize = usize::MAX;

/// One trie node: its parent (`None` for the root), the function it stands
/// for, and how many instructions were executed with this node on top.
pub type TrieNode = (Option<usize>, usize, u64);

/// A function of the guest ELF: its address range and its folded-frame label.
pub struct Func {
    pub start: u64,
    pub end: u64,
    pub label: String,
}

/// What a function is, as far as the profile is concerned.
pub struct FuncInfo {
    pub start: u64,
    pub end: u64,
    pub label: Seq<char>,
}

impl Func {
    pub open spec fn info(self) -> FuncInfo {
        FuncInfo { start: self.start, end: self.end, label: self.label@ }
    }
}

/// Why a profile could not be built from an ELF image.
pub enum ProfileError {
    /// The bytes are not an object file that the `object` crate can read.
    Elf(object::Error),
    /// A text symbol's address plus its size does not fit in 64 bits.
    SymbolRangeOverflow,
}

/// The abstract state of a profile: the functions, the shadow call stack
/// (trie node ids, root first) and the trie nodes.
pub struct ProfileView {
    pub funcs: Seq<FuncInfo>,
    pub stack: Seq<usize>,
    pub nodes: Seq<TrieNode>,
}

/// The last function (by index) whose entry address is `pc`.
pub open spec fn last_entry(funcs: Seq<FuncInfo>, pc: u64) -> Option<usize>
    decreases funcs.len(),
{
    if funcs.len() == 0 {
        None
    } else if funcs.last().start == pc {
        Some((funcs.len() - 1) as usize)
    } else {
        last_entry(funcs.drop_last(), pc)
    }
}

/// Each entry address mapped to the last function that starts there.
pub open spec fn entry_map(funcs: Seq<FuncInfo>) -> Map<u64, usize> {
    Map::new(|k: u64| last_entry(funcs, k) is Some, |k: u64| last_entry(funcs, k)->0)
}

/// The functions on the path from the root to node `n`, root first.
pub open spec fn path_of(nodes: Seq<TrieNode>, n: int) -> Seq<usize>
    decreases n,
{
    if 0 < n < nodes.len() && nodes[n].0 is Some && (nodes[n].0->0 as int) < n {
        path_of(nodes, nodes[n].0->0 as int).push(nodes[n].1)
    } else {
        Seq::empty()
    }
}

/// The sum of the instruction counts of all nodes.
pub open spec fn count_sum(nodes: Seq<TrieNode>) -> int
    decreases nodes.len(),
{
    if nodes.len() == 0 {
        0
    } else {
        count_sum(nodes.drop_last()) + nodes.last().2
    }
}

/// The key under which the child of `parent` for function `f` is found.
pub open spec fn child_key(parent: usize, f: usize) -> u128 {
    (parent as int * 0x1_0000_0000_0000_0000 + f as int) as u128
}

impl ProfileView {
    /// The node on top of the shadow call stack.
    pub open spec fn top(self) -> usize {
        self.stack.last()
    }

    /// Whether `pc` lies in the body of node `node`'s function: after its
    /// first instruction and at most at its end address.
    pub open spec fn covers(self, node: usize, pc: u64) -> bool {
        let f = self.nodes[node as int].1;
        &&& f != NO_FUNCTION
        &&& (f as int) < self.funcs.len()
        &&& pc > self.funcs[f as int].start
        &&& pc <= self.funcs[f as int].end
    }

    /// Whether function `f` has a frame on the shadow call stack.
    pub open spec fn on_stack(self, f: usize) -> bool {
        exists|i: int| 0 <= i < self.stack.len() && self.nodes[self.stack[i] as int].1 == f
    }

    /// Whether node `n` is the child of `parent` for function `f`.
    pub open spec fn is_child(self, n: int, parent: usize, f: usize) -> bool {
        &&& 1 <= n < self.nodes.len()
        &&& self.nodes[n].0 == Some(parent)
        &&& self.nodes[n].1 == f
    }

    /// A call of `f`: push the top's child for `f`, creating it first if
    /// the trie has none.
    pub open spec fn enter(self, f: usize) -> ProfileView {
        let parent = self.top();
        if exists|n: int| self.is_child(n, parent, f) {
            let n = choose|n: int| self.is_child(n, parent, f);
            ProfileView { funcs: self.funcs, stack: self.stack.push(n as usize), nodes: self.nodes }
        } else {
            ProfileView {
                funcs: self.funcs,
                stack: self.stack.push(self.nodes.len() as usize),
                nodes: self.nodes.push((Some(parent), f, 0u64)),
            }
        }
    }

    /// The deepest of the first `k` stack frames that covers `pc`.
    pub open spec fn deepest_covering(self, pc: u64, k: int) -> Option<int>
        decreases k,
    {
        if k <= 0 {
            None
        } else if self.covers(self.stack[k - 1], pc) {
            Some(k - 1)
        } else {
            self.deepest_covering(pc, k - 1)
        }
    }

    /// The shadow stack after seeing `pc`: stay in the top function; or,
    /// at a function entry, call it unless it already has a frame (recursion
    /// is flattened); or else return to the deepest frame that covers `pc`.
    pub open spec fn moved(self, pc: u64) -> ProfileView {
        if self.covers(self.top(), pc) {
            self
        } else {
            match last_entry(self.funcs, pc) {
                Some(f) => if self.on_stack(f) {
                    self
                } else {
                    self.enter(f)
                },
                None => match self.deepest_covering(pc, self.stack.len() as int) {
                    Some(d) => ProfileView {
                        funcs: self.funcs,
                        stack: self.stack.take(d + 1),
                        nodes: self.nodes,
                    },
                    None => self,
                },
            }
        }
    }

    /// One executed instruction at `pc`: move the stack, then count the
    /// instruction on the node on top.
    pub open spec fn step(self, pc: u64) -> ProfileView {
        let m = self.moved(pc);
        let t = m.top() as int;
        ProfileView {
            funcs: m.funcs,
            stack: m.stack,
            nodes: m.nodes.update(t, (m.nodes[t].0, m.nodes[t].1, (m.nodes[t].2 + 1) as u64)),
        }
    }

    /// The number of instructions counted so far.
    pub open spec fn total_samples(self) -> int {
        count_sum(self.nodes)
    }

    /// The profile as built from `funcs`: an empty trie and a stack that
    /// holds only the root.
    pub open spec fn initial(funcs: Seq<FuncInfo>) -> ProfileView {
        ProfileView { funcs, stack: seq![0usize], nodes: seq![(None::<usize>, NO_FUNCTION, 0u64)] }
    }

    /// Node `n` is a function node (not the root) whose parent comes before it.
    pub open spec fn node_ok(self, n: int) -> bool {
        &&& self.nodes[n].0 is Some
        &&& (self.nodes[n].0->0 as int) < n
        &&& (self.nodes[n].1 as int) < self.funcs.len()
    }

    /// The shape of a profile: the trie is rooted at node 0, parents come
    /// before their children, no function occurs twice on a call path, a node
    /// has at most one child per function, and the stack is a path from the
    /// root down the trie.
    pub open spec fn shaped(self) -> bool {
        &&& self.funcs.len() <= usize::MAX
        &&& 1 <= self.nodes.len() <= usize::MAX
        &&& self.nodes[0].0 is None
        &&& self.nodes[0].1 == NO_FUNCTION
        &&& forall|n: int| 1 <= n < self.nodes.len() ==> #[trigger] self.node_ok(n)
        &&& forall|n: int|
            1 <= n < self.nodes.len() ==> !#[trigger] path_of(
                self.nodes,
                self.nodes[n].0->0 as int,
            ).contains(self.nodes[n].1)
        &&& forall|n: int, m: int|
            1 <= n < self.nodes.len() && 1 <= m < self.nodes.len() && n != m ==> !(
            #[trigger] self.nodes[n].0 == #[trigger] self.nodes[m].0 && self.nodes[n].1
                == self.nodes[m].1)
        &&& self.stack.len() >= 1
        &&& self.stack[0] == 0
        &&& forall|i: int| 0 <= i < self.stack.len() ==> (#[trigger] self.stack[i] as int) < self.nodes.len()
        &&& forall|i: int|
            1 <= i < self.stack.len() ==> self.nodes[#[trigger] self.stack[i] as int].0 == Some(
                self.stack[i - 1],
            )
    }

    /// Every profile that can be reached: its shape, and every function
    /// node has counted at least one instruction (a call path enters the
    /// trie with the instruction that first reaches it).
    pub open spec fn wf(self) -> bool {
        &&& self.shaped()
        &&& forall|n: int| 1 <= n < self.nodes.len() ==> #[trigger] self.nodes[n].2 >= 1
    }
}

/// Streaming folded-stack profiler. Processes one PC at a time via
/// [`FoldedProfile::on_instruction`], maintaining a shadow call stack and a
/// count trie.
pub struct FoldedProfile {
    funcs: Vec<Func>,
    start_map: HashMap<u64, usize>,
    stack: Vec<usize>,
    nodes: Vec<TrieNode>,
    child: HashMap<u128, usize>,
}

impl View for FoldedProfile {
    type V = ProfileView;

    closed spec fn view(&self) -> ProfileView {
        ProfileView {
            funcs: self.funcs@.map_values(|f: Func| f.info()),
            stack: self.stack@,
            nodes: self.nodes@,
        }
    }
}

/// The child lookup table holds exactly the trie's function nodes, each under
/// the key of its parent and function.
pub open spec fn child_table_ok(child: Map<u128, usize>, nodes: Seq<TrieNode>) -> bool {
    &&& forall|n: int|
        1 <= n < nodes.len() ==> #[trigger] child.contains_key(child_key(nodes[n].0->0, nodes[n].1))
            && child[child_key(nodes[n].0->0, nodes[n].1)] == n
    &&& forall|k: u128|
        #[trigger] child.contains_key(k) ==> 1 <= child[k] < nodes.len() && k == child_key(
            nodes[child[k] as int].0->0,
            nodes[child[k] as int].1,
        )
}

/// `last_entry` after one more function: the new one wins where it starts at `pc`.
pub proof fn lemma_last_entry_push(funcs: Seq<FuncInfo>, x: FuncInfo, pc: u64)
    ensures
        last_entry(funcs.push(x), pc) == if x.start == pc {
            Some(funcs.len() as usize)
        } else {
            last_entry(funcs, pc)
        },
{
    assert(funcs.push(x).drop_last() =~= funcs);
}

/// `last_entry` finds a function that starts at `pc`, and is `None` only
/// where none does.
pub proof fn lemma_last_entry_found(funcs: Seq<FuncInfo>, pc: u64)
    requires
        funcs.len() <= usize::MAX,
    ensures
        last_entry(funcs, pc) matches Some(i) ==> (i as int) < funcs.len() && funcs[i as int].start
            == pc,
        last_entry(funcs, pc) is None ==> forall|j: int|
            0 <= j < funcs.len() ==> funcs[j].start != pc,
    decreases funcs.len(),
{
    if funcs.len() > 0 {
        lemma_last_entry_found(funcs.drop_last(), pc);
        assert forall|j: int| 0 <= j < funcs.len() - 1 implies funcs.drop_last()[j] == funcs[j] by {}
    }
}

/// The entry map after one more function.
pub proof fn lemma_entry_map_push(funcs: Seq<FuncInfo>, x: FuncInfo)
    ensures
        entry_map(funcs.push(x)) == entry_map(funcs).insert(x.start, funcs.len() as usize),
{
    assert forall|k: u64| #![all_triggers] true implies last_entry(funcs.push(x), k) == if x.start == k {
        Some(funcs.len() as usize)
    } else {
        last_entry(funcs, k)
    } by {
        lemma_last_entry_push(funcs, x, k);
    }
    assert(entry_map(funcs.push(x)) =~= entry_map(funcs).insert(x.start, funcs.len() as usize));
}

/// Paths only depend on parents and functions of the nodes up to `n`.
pub proof fn lemma_path_frame(a: Seq<TrieNode>, b: Seq<TrieNode>, n: int)
    requires
        0 <= n < a.len() <= b.len(),
        forall|m: int| 0 <= m <= n ==> #[trigger] a[m].0 == b[m].0 && a[m].1 == b[m].1,
    ensures
        path_of(a, n) == path_of(b, n),
    decreases n,
{
    if 0 < n && a[n].0 is Some && (a[n].0->0 as int) < n {
        lemma_path_frame(a, b, a[n].0->0 as int);
    }
}

/// Distinct parent-function pairs have distinct keys.
pub proof fn lemma_child_key_injective(p1: usize, f1: usize, p2: usize, f2: usize)
    requires
        child_key(p1, f1) == child_key(p2, f2),
    ensures
        p1 == p2,
        f1 == f2,
{
    assert(usize::MAX < 0x1_0000_0000_0000_0000);
    assert(p1 as int * 0x1_0000_0000_0000_0000 + f1 as int == p2 as int * 0x1_0000_0000_0000_0000
        + f2 as int);
}

/// The child key of a parent and a function.
fn make_child_key(parent: usize, f: usize) -> (k: u128)
    ensures
        k == child_key(parent, f),
{
    assert(usize::MAX < 0x1_0000_0000_0000_0000);
    (parent as u128) * 0x1_0000_0000_0000_0000u128 + (f as u128)
}

/// A key found in the child table names the one child of `parent` for `f`.
proof fn lemma_child_found(v: ProfileView, child: Map<u128, usize>, parent: usize, f: usize)
    requires
        v.shaped(),
        child_table_ok(child, v.nodes),
        child.contains_key(child_key(parent, f)),
    ensures
        v.is_child(child[child_key(parent, f)] as int, parent, f),
        (choose|c: int| v.is_child(c, parent, f)) == child[child_key(parent, f)] as int,
{
    let n = child[child_key(parent, f)] as int;
    assert(v.node_ok(n));
    lemma_child_key_injective(parent, f, v.nodes[n].0->0, v.nodes[n].1);
    assert(v.is_child(n, parent, f));
    let c = choose|c: int| v.is_child(c, parent, f);
    assert(c == n);
}

/// A key missing from the child table means that `parent` has no child for `f`.
proof fn lemma_child_absent(v: ProfileView, child: Map<u128, usize>, parent: usize, f: usize)
    requires
        child_table_ok(child, v.nodes),
        !child.contains_key(child_key(parent, f)),
    ensures
        !exists|c: int| v.is_child(c, parent, f),
{
    if exists|c: int| v.is_child(c, parent, f) {
        let c = choose|c: int| v.is_child(c, parent, f);
        assert(child.contains_key(child_key(v.nodes[c].0->0, v.nodes[c].1)));
    }
}

/// A new child node goes into the table under its key.
proof fn lemma_child_table_push(
    nodes: Seq<TrieNode>,
    child: Map<u128, usize>,
    parent: usize,
    f: usize,
)
    requires
        child_table_ok(child, nodes),
        !child.contains_key(child_key(parent, f)),
        1 <= nodes.len() <= usize::MAX,
    ensures
        child_table_ok(
            child.insert(child_key(parent, f), nodes.len() as usize),
            nodes.push((Some(parent), f, 0u64)),
        ),
{
    let key = child_key(parent, f);
    let c2 = child.insert(key, nodes.len() as usize);
    let n2 = nodes.push((Some(parent), f, 0u64));
    assert forall|m: int|
        1 <= m < n2.len() implies #[trigger] c2.contains_key(child_key(n2[m].0->0, n2[m].1))
        && c2[child_key(n2[m].0->0, n2[m].1)] == m by {
        if m < nodes.len() {
            assert(n2[m] == nodes[m]);
            assert(child.contains_key(child_key(nodes[m].0->0, nodes[m].1)));
        }
    }
    assert forall|k: u128| #[trigger] c2.contains_key(k) implies 1 <= c2[k] < n2.len() && k
        == child_key(n2[c2[k] as int].0->0, n2[c2[k] as int].1) by {
        if k != key {
            assert(n2[c2[k] as int] == nodes[c2[k] as int]);
        }
    }
}

/// Counts do not matter to the child table.
proof fn lemma_child_table_update(
    nodes: Seq<TrieNode>,
    child: Map<u128, usize>,
    t: int,
    x: TrieNode,
)
    requires
        child_table_ok(child, nodes),
        0 <= t < nodes.len(),
        x.0 == nodes[t].0,
        x.1 == nodes[t].1,
    ensures
        child_table_ok(child, nodes.update(t, x)),
{
    let n2 = nodes.update(t, x);
    assert forall|m: int|
        1 <= m < n2.len() implies #[trigger] child.contains_key(child_key(n2[m].0->0, n2[m].1))
        && child[child_key(n2[m].0->0, n2[m].1)] == m by {
        assert(child.contains_key(child_key(nodes[m].0->0, nodes[m].1)));
    }
    assert forall|k: u128| #[trigger] child.contains_key(k) implies 1 <= child[k] < n2.len() && k
        == child_key(n2[child[k] as int].0->0, n2[child[k] as int].1) by {
        assert(n2[child[k] as int].0 == nodes[child[k] as int].0);
    }
}

/// A profile's invariant gives its view's shape, so the laws apply to it.
pub proof fn lemma_wf_view(p: &FoldedProfile)
    requires
        p.wf(),
    ensures
        p@.wf(),
{
}

impl FoldedProfile {
    /// The profile's invariant: the abstract shape, and the two lookup
    /// tables agree with the functions and the trie.
    pub closed spec fn wf(&self) -> bool {
        &&& self@.wf()
        &&& self.start_map@ == entry_map(self@.funcs)
        &&& child_table_ok(self.child@, self.nodes@)
    }

    /// Parses the ELF symbol table and initializes the profiler: every text
    /// symbol with a nonzero size becomes a function, ranging from its
    /// address to its address plus its size, labelled with its demangled
    /// name. Fails where `object` cannot read the bytes, and where a
    /// function's range would end past the 64-bit address space.
    pub fn new(elf: &[u8]) -> (res: Result<FoldedProfile, ProfileError>)
        ensures
            res matches Ok(p) ==> {
                &&& ranges_fit(elf_symbol_table(elf@))
                &&& p.wf()
                &&& p@.wf()
                &&& p@ == ProfileView::initial(profiled_functions(elf_symbol_table(elf@)))
            },
            res matches Err(ProfileError::SymbolRangeOverflow) ==> !ranges_fit(
                elf_symbol_table(elf@),
            ),
    {
        FoldedProfile::from_read(read_elf_symbols(elf))
    }

    /// Initializes the profiler from the outcome of reading a symbol table:
    /// the reader's error is handed on; a table in which every profiled
    /// symbol's range fits gives the fresh profile over its functions; any
    /// other table gives `SymbolRangeOverflow`.
    pub fn from_read(read: Result<Vec<ElfSymbol>, object::Error>) -> (res: Result<
        FoldedProfile,
        ProfileError,
    >)
        ensures
            read matches Err(e) ==> res == Err::<FoldedProfile, ProfileError>(ProfileError::Elf(e)),
            read matches Ok(v) ==> (res is Ok <==> ranges_fit(v@.map_values(|s: ElfSymbol| s@))),
            read matches Ok(v) ==> (res matches Ok(p) ==> {
                &&& p.wf()
                &&& p@.wf()
                &&& p@ == ProfileView::initial(
                    profiled_functions(v@.map_values(|s: ElfSymbol| s@)),
                )
            }),
            read is Ok && res is Err ==> res matches Err(ProfileError::SymbolRangeOverflow),
    {
        let symbols = match read {
            Ok(symbols) => symbols,
            Err(e) => return Err(ProfileError::Elf(e)),
        };
        if !check_ranges(&symbols) {
            return Err(ProfileError::SymbolRangeOverflow);
        }
        let funcs = text_functions(&symbols);
        Ok(FoldedProfile::from_functions(funcs))
    }

    /// The number of trie nodes: the root and one node per call path reached.
    pub fn node_count(&self) -> (n: usize)
        ensures
            n == self@.nodes.len(),
    {
        self.nodes.len()
    }

    /// A profile over the given functions, in order, with an empty trie.
    /// Where several functions start at one address, calls there enter the
    /// last of them.
    pub fn from_functions(funcs: Vec<Func>) -> (profile: FoldedProfile)
        ensures
            profile.wf(),
            profile@.wf(),
            profile@ == ProfileView::initial(funcs@.map_values(|f: Func| f.info())),
    {
        let ghost infos = funcs@.map_values(|f: Func| f.info());
        let mut start_map: HashMap<u64, usize> = HashMap::new();
        let n = funcs.len();
        let mut i: usize = 0;
        assert(infos.take(0) =~= Seq::<FuncInfo>::empty());
        assert(entry_map(Seq::<FuncInfo>::empty()) =~= Map::<u64, usize>::empty());
        while i < n
            invariant
                n == funcs.len(),
                i <= n,
                infos == funcs@.map_values(|f: Func| f.info()),
                start_map@ == entry_map(infos.take(i as int)),
            decreases n - i,
        {
            start_map.insert(funcs[i].start, i);
            proof {
                lemma_entry_map_push(infos.take(i as int), infos[i as int]);
                assert(infos.take(i as int).push(infos[i as int]) =~= infos.take(i + 1));
            }
            i += 1;
        }
        assert(infos.take(n as int) =~= infos);
        let mut nodes: Vec<TrieNode> = Vec::new();
        nodes.push((None, NO_FUNCTION, 0));
        let mut stack: Vec<usize> = Vec::new();
        stack.push(0);
        let child: HashMap<u128, usize> = HashMap::new();
        let profile = FoldedProfile { funcs, start_map, stack, nodes, child };
        assert(profile@ == ProfileView::initial(infos));
        profile
    }

    /// Whether `pc` lies in the body of node `node`'s function.
    fn covers_pc(&self, node: usize, pc: u64) -> (r: bool)
        requires
            self.wf(),
            (node as int) < self@.nodes.len(),
        ensures
            r == self@.covers(node, pc),
    {
        let f = self.nodes[node].1;
        proof {
            if node != 0 {
                assert(self@.node_ok(node as int));
            }
        }
        f != NO_FUNCTION && pc > self.funcs[f].start && pc <= self.funcs[f].end
    }

    /// Whether function `f` has a frame on the shadow stack.
    fn stack_holds(&self, f: usize) -> (r: bool)
        requires
            self.wf(),
        ensures
            r == self@.on_stack(f),
    {
        let mut i: usize = 0;
        while i < self.stack.len()
            invariant
                self.wf(),
                i <= self.stack.len(),
                forall|j: int| 0 <= j < i ==> self.nodes@[self.stack@[j] as int].1 != f,
            decreases self.stack.len() - i,
        {
            if self.nodes[self.stack[i]].1 == f {
                return true;
            }
            i += 1;
        }
        false
    }

    /// The deepest stack frame whose function covers `pc`.
    fn deepest_covering_frame(&self, pc: u64) -> (r: Option<usize>)
        requires
            self.wf(),
        ensures
            match self@.deepest_covering(pc, self@.stack.len() as int) {
                Some(d) => r == Some(d as usize),
                None => r is None,
            },
    {
        let mut k: usize = self.stack.len();
        while k > 0
            invariant
                self.wf(),
                k <= self.stack.len(),
                self@.deepest_covering(pc, self@.stack.len() as int) == self@.deepest_covering(
                    pc,
                    k as int,
                ),
            decreases k,
        {
            if self.covers_pc(self.stack[k - 1], pc) {
                return Some(k - 1);
            }
            k -= 1;
        }
        None
    }

    /// Called once per executed guest instruction. Folds the instruction
    /// into the count trie without per-PC allocation. Staying in the top
    /// function costs constant time; a call scans the shadow stack for the
    /// function once, and a return scans it from the top for the frame to
    /// return to, so these cost time in the depth of the stack.
    ///
    /// The stack stays in the top function while `pc` lies in its body; at a
    /// function's entry address it calls that function, unless the function
    /// already has a frame (recursion is flattened); anywhere else it returns
    /// to the deepest frame whose function covers `pc`, if any. The node on
    /// top then counts the instruction.
    pub fn on_instruction(&mut self, pc: u32)
        requires
            old(self).wf(),
            old(self)@.total_samples() < u64::MAX,
            old(self)@.nodes.len() < usize::MAX,
        ensures
            final(self).wf(),
            final(self)@.wf(),
            final(self)@ == old(self)@.step(pc as u64),
            final(self)@.total_samples() == old(self)@.total_samples() + 1,
    {
        let ghost v = self@;
        let ghost old_child = self.child@;
        proof {
            lemma_moved_wf(v, pc as u64);
        }
        let pc = pc as u64;
        let top = self.stack[self.stack.len() - 1];
        let in_top = self.covers_pc(top, pc);
        if in_top {
        } else {
            let entry: Option<usize> = match self.start_map.get(&pc) {
                Some(f) => Some(*f),
                None => None,
            };
            proof {
                lemma_last_entry_found(v.funcs, pc);
            }
            match entry {
                Some(f) => {
                    assert(last_entry(v.funcs, pc) == Some(f));
                    let already = self.stack_holds(f);
                    if !already {
                        let key = make_child_key(top, f);
                        let next = match self.child.get(&key) {
                            Some(n) => {
                                let n = *n;
                                proof {
                                    lemma_child_found(v, self.child@, top, f);
                                }
                                n
                            },
                            None => {
                                proof {
                                    lemma_child_absent(v, self.child@, top, f);
                                }
                                let n = self.nodes.len();
                                self.nodes.push((Some(top), f, 0));
                                self.child.insert(key, n);
                                proof {
                                    lemma_child_table_push(v.nodes, old_child, top, f);
                                }
                                n
                            },
                        };
                        self.stack.push(next);
                    }
                },
                None => {
                    proof {
                        lemma_deepest_covering_bound(v, pc, v.stack.len() as int);
                    }
                    let found = self.deepest_covering_frame(pc);
                    match found {
                        Some(d) => {
                            self.stack.truncate(d + 1);
                        },
                        None => {},
                    }
                },
            }
        }
        assert(self@ == v.moved(pc));
        let t = self.stack[self.stack.len() - 1];
        proof {
            lemma_count_le_sum(self.nodes@, t as int);
        }
        let (parent, f, count) = self.nodes[t];
        self.nodes.set(t, (parent, f, count + 1));
        proof {
            lemma_step_preserves_wf(v, pc);
            lemma_count_sum_update(v.moved(pc).nodes, t as int, (parent, f, (count + 1) as u64));
            lemma_child_table_update(v.moved(pc).nodes, self.child@, t as int, (parent, f, (count + 1) as u64));
            assert(self@ == v.step(pc));
        }
    }

    /// The call path of node `id`, root first.
    fn path_to(&self, id: usize) -> (path: Vec<usize>)
        requires
            self.wf(),
            (id as int) < self@.nodes.len(),
        ensures
            path@ == path_of(self@.nodes, id as int),
            forall|j: int| 0 <= j < path@.len() ==> (#[trigger] path@[j] as int) < self@.funcs.len(),
    {
        let ghost v = self@;
        let mut path: Vec<usize> = Vec::new();
        let mut cur = id;
        loop
            invariant
                self.wf(),
                v == self@,
                (cur as int) < v.nodes.len(),
                path_of(v.nodes, id as int) == path_of(v.nodes, cur as int) + path@,
                forall|j: int| 0 <= j < path@.len() ==> (#[trigger] path@[j] as int) < v.funcs.len(),
            ensures
                path@ == path_of(v.nodes, id as int),
                forall|j: int| 0 <= j < path@.len() ==> (#[trigger] path@[j] as int) < v.funcs.len(),
            decreases cur,
        {
            match self.nodes[cur].0 {
                Some(parent) => {
                    assert(cur != 0);
                    assert(v.node_ok(cur as int));
                    let f = self.nodes[cur].1;
                    let ghost old_path = path@;
                    path.insert(0, f);
                    assert(path_of(v.nodes, cur as int) == path_of(v.nodes, parent as int).push(f));
                    assert(path_of(v.nodes, parent as int).push(f) + old_path =~= path_of(
                        v.nodes,
                        parent as int,
                    ) + path@);
                    cur = parent;
                },
                None => {
                    assert(path_of(v.nodes, cur as int) =~= Seq::<usize>::empty());
                    assert(path_of(v.nodes, id as int) =~= path@);
                    break;
                },
            }
        }
        path
    }

    /// Writes the folded-stack profile, one line per call path that counted
    /// instructions, in the order in which the paths were first reached.
    /// Call after execution completes.
    pub fn write(&self, out: &mut Vec<u8>)
        requires
            self.wf(),
        ensures
            final(out)@ == old(out)@ + folded_text(self@),
    {
        let ghost v = self@;
        let ghost base = out@;
        let mut id: usize = 1;
        while id < self.nodes.len()
            invariant
                self.wf(),
                v == self@,
                1 <= id <= self.nodes@.len(),
                out@ == base + folded_lines(v, id as int),
            decreases self.nodes@.len() - id,
        {
            let count = self.nodes[id].2;
            let ghost before = out@;
            if count != 0 {
                let path = self.path_to(id);
                let ghost line_start = out@;
                let mut i: usize = 0;
                while i < path.len()
                    invariant
                        self.wf(),
                        v == self@,
                        i <= path@.len(),
                        forall|j: int| 0 <= j < path@.len() ==> (#[trigger] path@[j] as int) < v.funcs.len(),
                        out@ == line_start + frames_text(v.funcs, path@.take(i as int)),
                    decreases path@.len() - i,
                {
                    let ghost mid = out@;
                    if i > 0 {
                        out.push(59u8);
                        out.push(32u8);
                    }
                    let label = self.funcs[path[i]].label.as_str().as_bytes();
                    push_bytes(out, label);
                    assert(path@.take(i + 1).drop_last() =~= path@.take(i as int));
                    assert(out@ =~= line_start + frames_text(v.funcs, path@.take(i + 1)));
                    i += 1;
                }
                assert(path@.take(path@.len() as int) =~= path@);
                out.push(32u8);
                push_decimal(out, count);
                out.push(10u8);
                assert(out@ =~= before + folded_line(v, id as int));
            } else {
                assert(folded_line(v, id as int) =~= Seq::<u8>::empty());
            }
            assert(out@ =~= base + folded_lines(v, id + 1));
            id += 1;
        }
    }
}

} // verus!
