//! The named grammar model: terminals, non-terminals, productions and grammars.
use vstd::prelude::*;
use vstd::string::*;

verus! {

/// The character appended to a non-terminal's name to fork it.
pub open spec fn fork_mark() -> char {
    '@'
}

/// Whether `s` holds the fork mark.
fn holds_mark(s: &String) -> (r: bool)
    ensures
        r == s@.contains(fork_mark()),
{
    let t = s.as_str();
    let n = t.unicode_len();
    let mut i: usize = 0;
    while i < n
        invariant
            t@ == s@,
            n == s@.len(),
            i <= n,
            forall|j: int| 0 <= j < i ==> s@[j] != fork_mark(),
        decreases n - i,
    {
        if t.get_char(i) == '@' {
            return true;
        }
        i = i + 1;
    }
    false
}

/// A terminal symbol, identified by its name.
#[derive(Debug, Clone, Hash)]
pub struct Terminal {
    name: String,
}

impl View for Terminal {
    type V = Seq<char>;

    closed spec fn view(&self) -> Seq<char> {
        self.name@
    }
}

impl Terminal {
    pub fn new(name: &str) -> (r: Terminal)
        ensures
            r@ == name@,
    {
        Terminal { name: name.to_owned() }
    }

    pub fn name(&self) -> (r: &String)
        ensures
            r@ == self@,
    {
        &self.name
    }

    /// Whether both have the same name.
    pub fn same(&self, other: &Terminal) -> (r: bool)
        ensures
            r == (self@ == other@),
    {
        self.name == other.name
    }

    /// Whether the name holds the fork mark.
    pub fn is_marked(&self) -> (r: bool)
        ensures
            r == self@.contains(fork_mark()),
    {
        holds_mark(&self.name)
    }

    /// A copy with the same name.
    pub fn duplicate(&self) -> (r: Terminal)
        ensures
            r@ == self@,
    {
        Terminal { name: self.name.clone() }
    }
}

impl PartialEq for Terminal {
    fn eq(&self, other: &Terminal) -> bool {
        self.same(other)
    }
}

impl vstd::std_specs::cmp::PartialEqSpecImpl for Terminal {
    open spec fn obeys_eq_spec() -> bool {
        true
    }

    open spec fn eq_spec(&self, other: &Terminal) -> bool {
        self@ == other@
    }
}

impl Eq for Terminal {
}

/// A non-terminal symbol, identified by its name.
#[derive(Debug, Clone, Hash)]
pub struct NonTerminal {
    name: String,
}

impl View for NonTerminal {
    type V = Seq<char>;

    closed spec fn view(&self) -> Seq<char> {
        self.name@
    }
}

impl NonTerminal {
    pub fn new(name: &str) -> (r: NonTerminal)
        ensures
            r@ == name@,
    {
        NonTerminal { name: name.to_owned() }
    }

    pub fn name(&self) -> (r: &String)
        ensures
            r@ == self@,
    {
        &self.name
    }

    /// Whether both have the same name.
    pub fn same(&self, other: &NonTerminal) -> (r: bool)
        ensures
            r == (self@ == other@),
    {
        self.name == other.name
    }

    /// Whether the name holds the fork mark.
    pub fn is_marked(&self) -> (r: bool)
        ensures
            r == self@.contains(fork_mark()),
    {
        holds_mark(&self.name)
    }

    /// A copy with the same name.
    pub fn duplicate(&self) -> (r: NonTerminal)
        ensures
            r@ == self@,
    {
        NonTerminal { name: self.name.clone() }
    }

    /// A fresh non-terminal: this name with the fork mark appended.
    pub fn fork(&self) -> (r: NonTerminal)
        ensures
            r@ == self@.push(fork_mark()),
    {
        let name = self.name.clone().concat("@");
        proof {
            reveal_strlit("@");
            assert(name@ =~= self@.push(fork_mark()));
        }
        NonTerminal { name }
    }
}


impl PartialEq for NonTerminal {
    fn eq(&self, other: &NonTerminal) -> bool {
        self.same(other)
    }
}

impl vstd::std_specs::cmp::PartialEqSpecImpl for NonTerminal {
    open spec fn obeys_eq_spec() -> bool {
        true
    }

    open spec fn eq_spec(&self, other: &NonTerminal) -> bool {
        self@ == other@
    }
}

impl Eq for NonTerminal {
}

/// The model of a grammar symbol on a right-hand side.
pub enum ElementV {
    T(Seq<char>),
    NT(Seq<char>),
    Empty,
}

/// A symbol on a right-hand side: a terminal, a non-terminal, or the empty string.
#[derive(Debug, Clone)]
pub enum Element {
    T(Terminal),
    NT(NonTerminal),
    Empty,
}

impl View for Element {
    type V = ElementV;

    open spec fn view(&self) -> ElementV {
        match self {
            Element::T(t) => ElementV::T(t@),
            Element::NT(n) => ElementV::NT(n@),
            Element::Empty => ElementV::Empty,
        }
    }
}

impl Element {
    /// A copy with the same symbol.
    pub fn duplicate(&self) -> (r: Element)
        ensures
            r@ == self@,
    {
        match self {
            Element::T(t) => Element::T(t.duplicate()),
            Element::NT(n) => Element::NT(n.duplicate()),
            Element::Empty => Element::Empty,
        }
    }

    /// Whether this element is the non-terminal `nt`.
    pub fn is_non_terminal(&self, nt: &NonTerminal) -> (r: bool)
        ensures
            r == (self@ == ElementV::NT(nt@)),
    {
        match self {
            Element::NT(n) => n.same(nt),
            _ => false,
        }
    }
}

impl PartialEq for Element {
    fn eq(&self, other: &Element) -> bool {
        match (self, other) {
            (Element::T(l), Element::T(r)) => l.same(r),
            (Element::NT(l), Element::NT(r)) => l.same(r),
            (Element::Empty, Element::Empty) => true,
            _ => false,
        }
    }
}

impl Eq for Element {
}

impl vstd::std_specs::cmp::PartialEqSpecImpl for Element {
    open spec fn obeys_eq_spec() -> bool {
        true
    }

    open spec fn eq_spec(&self, other: &Element) -> bool {
        self@ == other@
    }
}

/// The model of a production: its left-hand side and right-hand side.
pub struct ProductionV {
    pub left: Seq<char>,
    pub right: Seq<ElementV>,
}

pub open spec fn elements_view(v: Seq<Element>) -> Seq<ElementV> {
    v.map_values(|e: Element| e@)
}

/// A production `left -> right`. An empty right-hand side is written `[Empty]`.
#[derive(Debug, Clone)]
pub struct Production {
    pub left: NonTerminal,
    pub right: Vec<Element>,
}

impl View for Production {
    type V = ProductionV;

    open spec fn view(&self) -> ProductionV {
        ProductionV { left: self.left@, right: elements_view(self.right@) }
    }
}

impl Production {
    pub fn new(left: NonTerminal, right: Vec<Element>) -> (r: Production)
        ensures
            r@ == (ProductionV { left: left@, right: elements_view(right@) }),
    {
        Production { left, right }
    }

    /// A copy with the same view.
    pub fn duplicate(&self) -> (r: Production)
        ensures
            r@ == self@,
    {
        let mut right: Vec<Element> = Vec::new();
        let mut k: usize = 0;
        while k < self.right.len()
            invariant
                k <= self.right@.len(),
                right@.len() == k,
                forall|j: int| 0 <= j < k ==> right@[j]@ == self.right@[j]@,
            decreases self.right@.len() - k,
        {
            right.push(self.right[k].duplicate());
            k = k + 1;
        }
        assert(elements_view(right@) =~= elements_view(self.right@));
        Production { left: self.left.duplicate(), right }
    }
}

/// How the empty string is written.
pub open spec fn empty_text() -> Seq<char> {
    seq!['e', 'm', 'p', 't', 'y', '@', '@']
}

pub open spec fn element_text(e: ElementV) -> Seq<char> {
    match e {
        ElementV::T(n) => n,
        ElementV::NT(n) => n,
        ElementV::Empty => empty_text(),
    }
}

/// The texts of `es`, separated by single spaces.
pub open spec fn joined(es: Seq<ElementV>) -> Seq<char>
    decreases es.len(),
{
    if es.len() == 0 {
        Seq::<char>::empty()
    } else if es.len() == 1 {
        element_text(es[0])
    } else {
        joined(es.drop_last()) + seq![' '] + element_text(es.last())
    }
}

/// `A -> X1 X2 ...`.
pub open spec fn production_text(p: ProductionV) -> Seq<char> {
    p.left + seq![' ', '-', '>', ' '] + joined(p.right)
}

impl Element {
    /// The element's name; `empty@@` for the empty string.
    pub fn text(&self) -> (r: String)
        ensures
            r@ == element_text(self@),
    {
        match self {
            Element::T(t) => t.name().clone(),
            Element::NT(n) => n.name().clone(),
            Element::Empty => {
                let r = String::from_str("empty@@");
                proof {
                    reveal_strlit("empty@@");
                    assert(r@ =~= empty_text());
                }
                r
            },
        }
    }
}

impl Production {
    /// The production written `A -> X1 X2 ...`.
    pub fn text(&self) -> (r: String)
        ensures
            r@ == production_text(self@),
    {
        let mut out = self.left.name().clone().concat(" -> ");
        proof {
            reveal_strlit(" -> ");
        }
        let ghost head = self@.left + seq![' ', '-', '>', ' '];
        assert(out@ =~= head);
        let ghost es = self@.right;
        let mut k: usize = 0;
        while k < self.right.len()
            invariant
                es == self@.right,
                head == self@.left + seq![' ', '-', '>', ' '],
                k <= es.len(),
                out@ == head + joined(es.take(k as int)),
            decreases es.len() - k,
        {
            let piece = self.right[k].text();
            proof {
                reveal_strlit(" ");
                assert(es.take(k + 1).drop_last() =~= es.take(k as int));
                assert(es.take(k + 1).last() == es[k as int]);
            }
            if k > 0 {
                out = out.concat(" ");
            } else {
                assert(es.take(0) =~= Seq::<ElementV>::empty());
            }
            out = out.concat(piece.as_str());
            k = k + 1;
            proof {
                assert(out@ =~= head + joined(es.take(k as int)));
            }
        }
        assert(es.take(k as int) =~= es);
        out
    }
}

/// The model of the productions of one non-terminal.
pub struct BlockV {
    pub left: Seq<char>,
    pub prods: Seq<ProductionV>,
}

pub open spec fn productions_view(v: Seq<Production>) -> Seq<ProductionV> {
    v.map_values(|p: Production| p@)
}

/// The productions of one non-terminal, in order.
#[derive(Debug, Clone)]
pub struct ProdBlock {
    pub left: NonTerminal,
    pub productions: Vec<Production>,
}

impl View for ProdBlock {
    type V = BlockV;

    open spec fn view(&self) -> BlockV {
        BlockV { left: self.left@, prods: productions_view(self.productions@) }
    }
}

impl ProdBlock {
    pub fn new(left: NonTerminal, productions: Vec<Production>) -> (r: ProdBlock)
        ensures
            r@ == (BlockV { left: left@, prods: productions_view(productions@) }),
    {
        ProdBlock { left, productions }
    }

    /// A copy with the same view.
    pub fn duplicate(&self) -> (r: ProdBlock)
        ensures
            r@ == self@,
    {
        let mut productions: Vec<Production> = Vec::new();
        let mut k: usize = 0;
        while k < self.productions.len()
            invariant
                k <= self.productions@.len(),
                productions@.len() == k,
                forall|j: int| 0 <= j < k ==> #[trigger] productions@[j]@ == self.productions@[j]@,
            decreases self.productions@.len() - k,
        {
            productions.push(self.productions[k].duplicate());
            k = k + 1;
        }
        assert(productions_view(productions@) =~= productions_view(self.productions@));
        ProdBlock { left: self.left.duplicate(), productions }
    }
}

/// The model of a grammar.
pub struct CfgV {
    pub start: Seq<char>,
    pub nts: Seq<Seq<char>>,
    pub ts: Seq<Seq<char>>,
    pub blocks: Seq<BlockV>,
}

pub open spec fn non_terminals_view(v: Seq<NonTerminal>) -> Seq<Seq<char>> {
    v.map_values(|n: NonTerminal| n@)
}

pub open spec fn terminals_view(v: Seq<Terminal>) -> Seq<Seq<char>> {
    v.map_values(|t: Terminal| t@)
}

pub open spec fn blocks_view(v: Seq<ProdBlock>) -> Seq<BlockV> {
    v.map_values(|b: ProdBlock| b@)
}

/// A context-free grammar. `productions[i]` holds the productions of
/// `non_terminals[i]`; the order of both lists is significant.
#[derive(Debug, Clone)]
pub struct CFG {
    pub start: NonTerminal,
    pub non_terminals: Vec<NonTerminal>,
    pub terminals: Vec<Terminal>,
    pub productions: Vec<ProdBlock>,
}

impl View for CFG {
    type V = CfgV;

    open spec fn view(&self) -> CfgV {
        CfgV {
            start: self.start@,
            nts: non_terminals_view(self.non_terminals@),
            ts: terminals_view(self.terminals@),
            blocks: blocks_view(self.productions@),
        }
    }
}

/// Names are distinct and none holds the fork mark (so none is reserved).
pub open spec fn names_ok(s: Seq<Seq<char>>) -> bool {
    &&& s.no_duplicates()
    &&& forall|i: int| 0 <= i < s.len() ==> !(#[trigger] s[i]).contains(fork_mark())
}

/// No block lists the same right-hand side twice.
pub open spec fn no_repeated_productions(cfg: CfgV) -> bool {
    forall|a: int, i: int, j: int|
        0 <= a < cfg.blocks.len() && 0 <= i < j < cfg.blocks[a].prods.len() ==> #[trigger] cfg.blocks[a].prods[i].right
            != #[trigger] cfg.blocks[a].prods[j].right
}

/// A grammar as a user may write it: it can be indexed, its names are
/// distinct and unreserved, and no production is repeated.
pub open spec fn well_formed(cfg: CfgV) -> bool {
    &&& crate::indexed::compilable(cfg)
    &&& names_ok(cfg.nts)
    &&& names_ok(cfg.ts)
    &&& no_repeated_productions(cfg)
    &&& forall|a: int, p: int|
        0 <= a < cfg.blocks.len() && 0 <= p < cfg.blocks[a].prods.len() ==> (#[trigger] cfg.blocks[a].prods[p]).right.len() > 0
}

fn same_right(a: &Vec<Element>, b: &Vec<Element>) -> (r: bool)
    ensures
        r == (elements_view(a@) == elements_view(b@)),
{
    if a.len() != b.len() {
        return false;
    }
    let mut k: usize = 0;
    while k < a.len()
        invariant
            a@.len() == b@.len(),
            k <= a@.len(),
            forall|j: int| 0 <= j < k ==> a@[j]@ == b@[j]@,
        decreases a@.len() - k,
    {
        if !(a[k] == b[k]) {
            assert(elements_view(a@)[k as int] != elements_view(b@)[k as int]);
            return false;
        }
        k = k + 1;
    }
    assert(elements_view(a@) =~= elements_view(b@));
    true
}

fn rights_nonempty(v: &Vec<ProdBlock>) -> (r: bool)
    ensures
        r == forall|a: int, p: int|
            0 <= a < v@.len() && 0 <= p < v@[a]@.prods.len() ==> (#[trigger] v@[a]@.prods[p]).right.len() > 0,
{
    let mut a: usize = 0;
    while a < v.len()
        invariant
            a <= v@.len(),
            forall|a2: int, p: int| 0 <= a2 < a && 0 <= p < v@[a2]@.prods.len() ==> (#[trigger] v@[a2]@.prods[p]).right.len() > 0,
        decreases v@.len() - a,
    {
        let ps = &v[a].productions;
        let mut p: usize = 0;
        while p < ps.len()
            invariant
                a < v@.len(),
                ps@ == v@[a as int].productions@,
                p <= ps@.len(),
                forall|a2: int, p2: int| 0 <= a2 < a && 0 <= p2 < v@[a2]@.prods.len() ==> (#[trigger] v@[a2]@.prods[p2]).right.len() > 0,
                forall|p2: int| 0 <= p2 < p ==> (#[trigger] ps@[p2])@.right.len() > 0,
            decreases ps@.len() - p,
        {
            if ps[p].right.len() == 0 {
                assert(v@[a as int]@.prods[p as int].right.len() == 0);
                return false;
            }
            p = p + 1;
        }
        proof {
            assert forall|p2: int| 0 <= p2 < v@[a as int]@.prods.len() implies (#[trigger] v@[a as int]@.prods[p2]).right.len() > 0 by {
                assert(ps@[p2]@.right.len() > 0);
            }
        }
        a = a + 1;
    }
    true
}

fn non_terminal_names_ok(v: &Vec<NonTerminal>) -> (r: bool)
    ensures
        r == names_ok(non_terminals_view(v@)),
{
    let ghost s = non_terminals_view(v@);
    let mut i: usize = 0;
    while i < v.len()
        invariant
            s == non_terminals_view(v@),
            i <= v@.len(),
            forall|j: int| 0 <= j < i ==> !(#[trigger] s[j]).contains(fork_mark()),
            forall|j: int, k: int| 0 <= j < k < v@.len() && j < i ==> s[j] != s[k],
        decreases v@.len() - i,
    {
        if v[i].is_marked() {
            assert(s[i as int] == v@[i as int]@);
            assert(s[i as int].contains(fork_mark()));
            return false;
        }
        let mut k: usize = i + 1;
        while k < v.len()
            invariant
                s == non_terminals_view(v@),
                i < k <= v@.len(),
                forall|k2: int| i < k2 < k ==> s[i as int] != s[k2],
            decreases v@.len() - k,
        {
            if v[i].same(&v[k]) {
                assert(s[i as int] == v@[i as int]@);
                assert(s[k as int] == v@[k as int]@);
                assert(s[i as int] == s[k as int]);
                assert(!s.no_duplicates());
                return false;
            }
            k = k + 1;
        }
        i = i + 1;
    }
    true
}

fn terminal_names_ok(v: &Vec<Terminal>) -> (r: bool)
    ensures
        r == names_ok(terminals_view(v@)),
{
    let ghost s = terminals_view(v@);
    let mut i: usize = 0;
    while i < v.len()
        invariant
            s == terminals_view(v@),
            i <= v@.len(),
            forall|j: int| 0 <= j < i ==> !(#[trigger] s[j]).contains(fork_mark()),
            forall|j: int, k: int| 0 <= j < k < v@.len() && j < i ==> s[j] != s[k],
        decreases v@.len() - i,
    {
        if v[i].is_marked() {
            assert(s[i as int] == v@[i as int]@);
            assert(s[i as int].contains(fork_mark()));
            return false;
        }
        let mut k: usize = i + 1;
        while k < v.len()
            invariant
                s == terminals_view(v@),
                i < k <= v@.len(),
                forall|k2: int| i < k2 < k ==> s[i as int] != s[k2],
            decreases v@.len() - k,
        {
            if v[i].same(&v[k]) {
                assert(s[i as int] == v@[i as int]@);
                assert(s[k as int] == v@[k as int]@);
                assert(s[i as int] == s[k as int]);
                assert(!s.no_duplicates());
                return false;
            }
            k = k + 1;
        }
        i = i + 1;
    }
    true
}

fn productions_unrepeated(v: &Vec<ProdBlock>) -> (r: bool)
    ensures
        r == forall|a: int, i: int, j: int|
            0 <= a < v@.len() && 0 <= i < j < v@[a]@.prods.len() ==> #[trigger] v@[a]@.prods[i].right
                != #[trigger] v@[a]@.prods[j].right,
{
    let mut a: usize = 0;
    while a < v.len()
        invariant
            a <= v@.len(),
            forall|a2: int, i: int, j: int|
                0 <= a2 < a && 0 <= i < j < v@[a2]@.prods.len() ==> #[trigger] v@[a2]@.prods[i].right
                    != #[trigger] v@[a2]@.prods[j].right,
        decreases v@.len() - a,
    {
        let ps = &v[a].productions;
        let mut i: usize = 0;
        while i < ps.len()
            invariant
                a < v@.len(),
                ps@ == v@[a as int].productions@,
                i <= ps@.len(),
                forall|i2: int, j: int| 0 <= i2 < j < ps@.len() && i2 < i ==> #[trigger] ps@[i2]@.right != #[trigger] ps@[j]@.right,
            decreases ps@.len() - i,
        {
            let mut j: usize = i + 1;
            while j < ps.len()
                invariant
                    a < v@.len(),
                    ps@ == v@[a as int].productions@,
                    i < j <= ps@.len(),
                    forall|j2: int| i < j2 < j ==> ps@[i as int]@.right != #[trigger] ps@[j2]@.right,
                decreases ps@.len() - j,
            {
                if same_right(&ps[i].right, &ps[j].right) {
                    assert(v@[a as int]@.prods[i as int].right == v@[a as int]@.prods[j as int].right);
                    return false;
                }
                j = j + 1;
            }
            i = i + 1;
        }
        proof {
            assert forall|i2: int, j: int| 0 <= i2 < j < v@[a as int]@.prods.len() implies #[trigger] v@[a as int]@.prods[i2].right
                != #[trigger] v@[a as int]@.prods[j].right by {
                assert(ps@[i2]@.right != ps@[j]@.right);
            }
        }
        a = a + 1;
    }
    true
}

impl CFG {
    /// A grammar from its parts; `GrammarMalformed` unless it is well formed.
    pub fn new(
        start: NonTerminal,
        non_terminals: Vec<NonTerminal>,
        terminals: Vec<Terminal>,
        productions: Vec<ProdBlock>,
    ) -> (r: Result<CFG, Error>)
        ensures
            r is Ok <==> well_formed(
                CfgV {
                    start: start@,
                    nts: non_terminals_view(non_terminals@),
                    ts: terminals_view(terminals@),
                    blocks: blocks_view(productions@),
                },
            ),
            r is Ok ==> r->Ok_0@ == (CfgV {
                start: start@,
                nts: non_terminals_view(non_terminals@),
                ts: terminals_view(terminals@),
                blocks: blocks_view(productions@),
            }),
            r is Err ==> r->Err_0 == Error::GrammarMalformed,
    {
        let cfg = CFG { start, non_terminals, terminals, productions };
        if crate::indexed::compile(&cfg).is_none() {
            return Err(Error::GrammarMalformed);
        }
        if !non_terminal_names_ok(&cfg.non_terminals) || !terminal_names_ok(&cfg.terminals) {
            return Err(Error::GrammarMalformed);
        }
        if !rights_nonempty(&cfg.productions) {
            proof {
                let c = cfg@;
                let (a, p) = choose|a: int, p: int|
                    0 <= a < cfg.productions@.len() && 0 <= p < cfg.productions@[a]@.prods.len() && !(cfg.productions@[a]@.prods[p].right.len() > 0);
                assert(c.blocks[a].prods[p].right.len() == 0);
            }
            return Err(Error::GrammarMalformed);
        }
        if !productions_unrepeated(&cfg.productions) {
            proof {
                let c = cfg@;
                assert(!no_repeated_productions(c)) by {
                    let (a, i, j) = choose|a: int, i: int, j: int|
                        0 <= a < cfg.productions@.len() && 0 <= i < j < cfg.productions@[a]@.prods.len() && !(cfg.productions@[a]@.prods[i].right
                            != cfg.productions@[a]@.prods[j].right);
                    assert(c.blocks[a].prods[i].right == c.blocks[a].prods[j].right);
                }
            }
            return Err(Error::GrammarMalformed);
        }
        proof {
            let c = cfg@;
            assert forall|a: int, i: int, j: int|
                0 <= a < c.blocks.len() && 0 <= i < j < c.blocks[a].prods.len() implies #[trigger] c.blocks[a].prods[i].right
                    != #[trigger] c.blocks[a].prods[j].right by {
                assert(cfg.productions@[a]@.prods[i].right != cfg.productions@[a]@.prods[j].right);
            }
            assert forall|a: int, p: int|
                0 <= a < c.blocks.len() && 0 <= p < c.blocks[a].prods.len() implies (#[trigger] c.blocks[a].prods[p]).right.len() > 0 by {
                assert(cfg.productions@[a]@.prods[p].right.len() > 0);
            }
        }
        Ok(cfg)
    }
}

/// A grammar produced by left-recursion elimination.
#[derive(Debug, Clone)]
pub struct CFGWithoutLeftRecursion {
    cfg: CFG,
}

impl View for CFGWithoutLeftRecursion {
    type V = CfgV;

    closed spec fn view(&self) -> CfgV {
        self.cfg@
    }
}

impl CFGWithoutLeftRecursion {
    pub(crate) fn from_cfg(cfg: CFG) -> (r: CFGWithoutLeftRecursion)
        ensures
            r@ == cfg@,
    {
        CFGWithoutLeftRecursion { cfg }
    }

    /// The grammar itself.
    pub fn cfg(&self) -> (r: &CFG)
        ensures
            r@ == self@,
    {
        &self.cfg
    }
}

/// A parse tree; recognition builds none.
pub struct ParseTree;

/// What can go wrong with a grammar.
#[derive(Debug, Clone, Copy, PartialEq, Eq)]
pub enum Error {
    /// A symbol is unknown, a list is misaligned, or a name is reserved or repeated.
    GrammarMalformed,
    /// A non-terminal has only left-recursive productions.
    AllLeftRecursive,
}

} // verus!
