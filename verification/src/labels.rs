//! Net names: the sequential permanent names, the disposable floating
//! names, and the registry that keeps the permanent ones apart.

use vstd::prelude::*;
use vstd::set_lib::*;

verus! {

/// The character for a single decimal digit.
pub open spec fn digit(d: nat) -> char {
    if d == 0 {
        '0'
    } else if d == 1 {
        '1'
    } else if d == 2 {
        '2'
    } else if d == 3 {
        '3'
    } else if d == 4 {
        '4'
    } else if d == 5 {
        '5'
    } else if d == 6 {
        '6'
    } else if d == 7 {
        '7'
    } else if d == 8 {
        '8'
    } else {
        '9'
    }
}

/// The decimal digits of `n`, most significant first, without leading zeros.
pub open spec fn decimal(n: nat) -> Seq<char>
    decreases n,
{
    if n < 10 {
        seq![digit(n)]
    } else {
        decimal(n / 10).push(digit(n % 10))
    }
}

/// The permanent name with number `n`: `net_` and the number.
pub open spec fn net_name(n: nat) -> Seq<char> {
    seq!['n', 'e', 't', '_'] + decimal(n)
}

/// The floating name with number `n`: `fn_` and the number.
pub open spec fn floating_name(n: nat) -> Seq<char> {
    seq!['f', 'n', '_'] + decimal(n)
}

/// `a` comes before `b` in the order of strings: at the first place where
/// they differ `a` has the smaller character, or `a` is a proper prefix of `b`.
pub open spec fn name_less(a: Seq<char>, b: Seq<char>) -> bool
    decreases a.len(),
{
    if b.len() == 0 {
        false
    } else if a.len() == 0 {
        true
    } else if a[0] != b[0] {
        (a[0] as u32) < (b[0] as u32)
    } else {
        name_less(a.skip(1), b.skip(1))
    }
}

/// Calls `format!("net_{}", n)`. Integers are displayed in decimal, without
/// sign, padding or leading zeros, so the result is the text `net_` followed
/// by the digits of `n`.
#[verifier::external_body]
fn format_net_name(n: usize) -> (s: String)
    ensures
        s@ == net_name(n as nat),
{
    format!("net_{}", n)
}

/// Calls `format!("fn_{}", n)`. Integers are displayed in decimal, without
/// sign, padding or leading zeros, so the result is the text `fn_` followed
/// by the digits of `n`.
#[verifier::external_body]
fn format_floating_name(n: usize) -> (s: String)
    ensures
        s@ == floating_name(n as nat),
{
    format!("fn_{}", n)
}

/// Calls `<` of `String`, which orders strings lexicographically by their
/// bytes; for UTF-8 text that is the lexicographic order of the characters'
/// code points.
#[verifier::external_body]
pub(crate) fn string_less(a: &String, b: &String) -> (r: bool)
    ensures
        r == name_less(a@, b@),
{
    a < b
}

/// Every number has a digit, and every number from ten on has two.
pub proof fn lemma_decimal_nonempty(n: nat)
    ensures
        decimal(n).len() >= 1,
        n >= 10 ==> decimal(n).len() >= 2,
    decreases n,
{
    if n >= 10 {
        lemma_decimal_nonempty(n / 10);
    }
}

/// Different numbers have different digits.
pub proof fn lemma_decimal_injective(a: nat, b: nat)
    requires
        decimal(a) == decimal(b),
    ensures
        a == b,
    decreases a,
{
    lemma_decimal_nonempty(a);
    lemma_decimal_nonempty(b);
    if a < 10 && b < 10 {
        assert(decimal(a)[0] == digit(a));
        assert(decimal(b)[0] == digit(b));
    } else if a < 10 || b < 10 {
        assert(decimal(a).len() != decimal(b).len());
    } else {
        let da = decimal(a / 10);
        let db = decimal(b / 10);
        assert(decimal(a).drop_last() =~= da);
        assert(decimal(b).drop_last() =~= db);
        assert(decimal(a).last() == digit(a % 10));
        assert(decimal(b).last() == digit(b % 10));
        lemma_decimal_injective(a / 10, b / 10);
    }
}

/// Different numbers have different permanent names.
pub proof fn lemma_net_name_injective(a: nat, b: nat)
    requires
        net_name(a) == net_name(b),
    ensures
        a == b,
{
    assert(net_name(a).skip(4) =~= decimal(a));
    assert(net_name(b).skip(4) =~= decimal(b));
    lemma_decimal_injective(a, b);
}

/// Different numbers have different floating names.
pub proof fn lemma_floating_name_injective(a: nat, b: nat)
    requires
        floating_name(a) == floating_name(b),
    ensures
        a == b,
{
    assert(floating_name(a).skip(3) =~= decimal(a));
    assert(floating_name(b).skip(3) =~= decimal(b));
    lemma_decimal_injective(a, b);
}

/// The registered names that a counter standing at `from` can still run
/// into: those that are the permanent name of some number `>= from`.
pub open spec fn net_names_ahead(reg: Set<Seq<char>>, from: nat) -> Set<Seq<char>> {
    reg.filter(|s: Seq<char>| exists|j: nat| j >= from && s == #[trigger] net_name(j))
}

/// The registered names that a floating counter standing at `from` can still
/// run into.
pub open spec fn floating_names_ahead(reg: Set<Seq<char>>, from: nat) -> Set<Seq<char>> {
    reg.filter(|s: Seq<char>| exists|j: nat| j >= from && s == #[trigger] floating_name(j))
}

/// What lies ahead of the permanent counter when it takes one step.
proof fn lemma_net_ahead_step(reg: Set<Seq<char>>, from: nat)
    requires
        reg.finite(),
    ensures
        net_names_ahead(reg, from).finite(),
        net_names_ahead(reg, from).len() <= reg.len(),
        reg.contains(net_name(from)) ==> net_names_ahead(reg, from).contains(net_name(from))
            && net_names_ahead(reg, from + 1) == net_names_ahead(reg, from).remove(net_name(from))
            && net_names_ahead(reg, from + 1).len() + 1 == net_names_ahead(reg, from).len(),
        !reg.contains(net_name(from)) ==> net_names_ahead(reg.insert(net_name(from)), from + 1)
            == net_names_ahead(reg, from),
{
    let here = net_names_ahead(reg, from);
    let next = net_names_ahead(reg, from + 1);
    lemma_len_subset(here, reg);
    assert forall|s: Seq<char>| next.contains(s) implies here.contains(s) && s != net_name(from) by {
        let j = choose|j: nat| j >= from + 1 && s == #[trigger] net_name(j);
        assert(j >= from && s == net_name(j));
        if s == net_name(from) {
            lemma_net_name_injective(j, from);
        }
    }
    assert forall|s: Seq<char>| here.contains(s) && s != net_name(from) implies next.contains(s) by {
        let j = choose|j: nat| j >= from && s == #[trigger] net_name(j);
        assert(j >= from + 1 && s == net_name(j));
    }
    if reg.contains(net_name(from)) {
        assert(from >= from && net_name(from) == net_name(from));
        assert(here.contains(net_name(from)));
        assert(next =~= here.remove(net_name(from)));
    } else {
        let grown = net_names_ahead(reg.insert(net_name(from)), from + 1);
        assert forall|s: Seq<char>| grown.contains(s) implies here.contains(s) by {
            let j = choose|j: nat| j >= from + 1 && s == #[trigger] net_name(j);
            if s == net_name(from) {
                lemma_net_name_injective(j, from);
            }
            assert(j >= from && s == net_name(j));
        }
        assert forall|s: Seq<char>| here.contains(s) implies grown.contains(s) by {
            assert(next.contains(s));
        }
        assert(grown =~= here);
    }
}

/// What lies ahead of the floating counter when it takes one step.
proof fn lemma_floating_ahead_step(reg: Set<Seq<char>>, from: nat)
    requires
        reg.finite(),
    ensures
        floating_names_ahead(reg, from).finite(),
        floating_names_ahead(reg, from).len() <= reg.len(),
        reg.contains(floating_name(from)) ==> floating_names_ahead(reg, from).contains(
            floating_name(from),
        ) && floating_names_ahead(reg, from + 1) == floating_names_ahead(reg, from).remove(
            floating_name(from),
        ) && floating_names_ahead(reg, from + 1).len() + 1 == floating_names_ahead(reg, from).len(),
{
    let here = floating_names_ahead(reg, from);
    let next = floating_names_ahead(reg, from + 1);
    lemma_len_subset(here, reg);
    if reg.contains(floating_name(from)) {
        assert(from >= from && floating_name(from) == floating_name(from));
        assert(here.contains(floating_name(from)));
        assert forall|s: Seq<char>| next.contains(s) implies here.contains(s) && s
            != floating_name(from) by {
            let j = choose|j: nat| j >= from + 1 && s == #[trigger] floating_name(j);
            assert(j >= from && s == floating_name(j));
            if s == floating_name(from) {
                lemma_floating_name_injective(j, from);
            }
        }
        assert forall|s: Seq<char>| here.contains(s) && s != floating_name(from) implies next.contains(
            s,
        ) by {
            let j = choose|j: nat| j >= from && s == #[trigger] floating_name(j);
            assert(j >= from + 1 && s == floating_name(j));
        }
        assert(next =~= here.remove(floating_name(from)));
    }
}

/// One name more in the registry puts at most one name more ahead of the
/// permanent counter.
proof fn lemma_net_ahead_insert(reg: Set<Seq<char>>, from: nat, name: Seq<char>)
    requires
        reg.finite(),
    ensures
        net_names_ahead(reg.insert(name), from).len() <= net_names_ahead(reg, from).len() + 1,
{
    let here = net_names_ahead(reg, from);
    let grown = net_names_ahead(reg.insert(name), from);
    lemma_len_subset(here, reg);
    assert(grown.subset_of(here.insert(name)));
    lemma_len_subset(grown, here.insert(name));
}

/// The names held by a list of strings.
pub open spec fn names_of(labels: Seq<String>) -> Set<Seq<char>> {
    labels.map_values(|s: String| s@).to_set()
}

/// The names of a list are those of its entries, and no more than it is
/// long.
pub proof fn lemma_names_of(labels: Seq<String>)
    ensures
        names_of(labels).finite(),
        names_of(labels).len() <= labels.len(),
        forall|i: int| 0 <= i < labels.len() ==> names_of(labels).contains(#[trigger] labels[i]@),
        forall|s: Seq<char>|
            names_of(labels).contains(s) ==> exists|i: int|
                0 <= i < labels.len() && #[trigger] labels[i]@ == s,
{
    let views = labels.map_values(|s: String| s@);
    vstd::seq_lib::seq_to_set_is_finite(views);
    views.lemma_cardinality_of_set();
    assert forall|i: int| 0 <= i < labels.len() implies names_of(labels).contains(
        #[trigger] labels[i]@,
    ) by {
        assert(views[i] == labels[i]@);
    }
    assert forall|s: Seq<char>| names_of(labels).contains(s) implies exists|i: int|
        0 <= i < labels.len() && #[trigger] labels[i]@ == s by {
        let i = choose|i: int| 0 <= i < views.len() && views[i] == s;
        assert(labels[i]@ == s);
    }
}

/// The names of a list with one entry more.
pub proof fn lemma_names_of_push(labels: Seq<String>, l: String)
    ensures
        names_of(labels.push(l)) == names_of(labels).insert(l@),
{
    let views = labels.map_values(|s: String| s@);
    let grown = labels.push(l).map_values(|s: String| s@);
    assert(grown =~= views.push(l@));
    views.lemma_push_to_set_commute(l@);
}

/// No name stands twice in the list.
pub open spec fn names_distinct(labels: Seq<String>) -> bool {
    forall|i: int, j: int| 0 <= i < j < labels.len() ==> (#[trigger] labels[i])@ != (#[trigger] labels[j])@
}

/// A list without a name twice holds as many names as it is long.
pub proof fn lemma_distinct_count(labels: Seq<String>)
    requires
        names_distinct(labels),
    ensures
        names_of(labels).len() == labels.len(),
{
    let views = labels.map_values(|s: String| s@);
    assert(views.no_duplicates()) by {
        assert forall|i: int, j: int| 0 <= i < views.len() && 0 <= j < views.len() && i != j implies views[i]
            != views[j] by {
            if i < j {
                assert(labels[i]@ != labels[j]@);
            } else {
                assert(labels[j]@ != labels[i]@);
            }
        }
    }
    views.unique_seq_to_set();
}

/// A name that the list does not hold can join it.
pub proof fn lemma_distinct_push(labels: Seq<String>, l: String)
    requires
        names_distinct(labels),
        !names_of(labels).contains(l@),
    ensures
        names_distinct(labels.push(l)),
{
    lemma_names_of(labels);
    let grown = labels.push(l);
    assert forall|i: int, j: int| 0 <= i < j < grown.len() implies (#[trigger] grown[i])@ != (
    #[trigger] grown[j])@ by {
        if j < labels.len() {
            assert(labels[i]@ != labels[j]@);
        } else {
            assert(names_of(labels).contains(labels[i]@));
        }
    }
}

/// Whether `name` is one of the names in `list`.
pub fn holds_name(list: &Vec<String>, name: &String) -> (r: bool)
    ensures
        r == names_of(list@).contains(name@),
{
    proof {
        lemma_names_of(list@);
    }
    let mut i: usize = 0;
    while i < list.len()
        invariant
            i <= list.len(),
            forall|j: int| 0 <= j < i ==> list[j]@ != name@,
        decreases list.len() - i,
    {
        if list[i] == *name {
            proof {
                lemma_names_of(list@);
            }
            return true;
        }
        i += 1;
    }
    false
}

/// No name comes before itself.
pub proof fn lemma_name_less_irreflexive(a: Seq<char>)
    ensures
        !name_less(a, a),
    decreases a.len(),
{
    if a.len() > 0 {
        lemma_name_less_irreflexive(a.skip(1));
    }
}

/// The order of names is transitive.
pub proof fn lemma_name_less_transitive(a: Seq<char>, b: Seq<char>, c: Seq<char>)
    requires
        name_less(a, b),
        name_less(b, c),
    ensures
        name_less(a, c),
    decreases a.len(),
{
    if a.len() > 0 && b.len() > 0 && c.len() > 0 {
        if a[0] == b[0] && b[0] == c[0] {
            lemma_name_less_transitive(a.skip(1), b.skip(1), c.skip(1));
        }
    }
}

/// What a manager will not give out, a later state of it will not either.
pub proof fn lemma_knows_later(m1: LabelManager, m2: LabelManager, name: Seq<char>)
    requires
        m1.registered().subset_of(m2.registered()),
        m1.watermark() <= m2.watermark(),
        m1.knows(name),
    ensures
        m2.knows(name),
{
    if m2.can_mint(name) {
        let j = choose|j: nat| j >= m2.watermark() && name == #[trigger] net_name(j);
        assert(j >= m1.watermark() && name == net_name(j));
    }
}

/// Mints net names that do not collide: sequential permanent names, which it
/// records, and sequential floating names, which it does not.
#[derive(Clone, Debug)]
pub struct LabelManager {
    /// number of the next floating name to try
    float_wm: usize,
    /// number of the next permanent name to try
    wm: usize,
    /// the permanent names in use
    labels: Vec<String>,
}

impl Default for LabelManager {
    /// A manager with nothing registered and both counters at zero.
    fn default() -> (m: LabelManager)
        ensures
            m.wf(),
            m.registered() == Set::<Seq<char>>::empty(),
            m.watermark() == 0,
            m.floating_watermark() == 0,
    {
        LabelManager::new()
    }
}

impl LabelManager {
    /// The set of permanent names in use.
    pub closed spec fn registered(&self) -> Set<Seq<char>> {
        names_of(self.labels@)
    }

    /// Number of the next permanent name to try. It never goes down.
    pub closed spec fn watermark(&self) -> nat {
        self.wm as nat
    }

    /// Number of the next floating name to try.
    pub closed spec fn floating_watermark(&self) -> nat {
        self.float_wm as nat
    }

    /// No name is registered twice, and the permanent counter can pass every
    /// registered name ahead of it without running out of numbers.
    pub closed spec fn wf(&self) -> bool {
        &&& names_distinct(self.labels@)
        &&& self.wm + net_names_ahead(self.registered(), self.wm as nat).len() <= self.labels@.len()
    }

    /// `name` is a permanent name that `new_label` may still give out: the
    /// name of a number from the watermark on.
    pub open spec fn can_mint(&self, name: Seq<char>) -> bool {
        exists|j: nat| j >= self.watermark() && name == #[trigger] net_name(j)
    }

    /// `new_label` will not give out `name`: it is registered, or it is no
    /// name of a number from the watermark on.
    pub open spec fn knows(&self, name: Seq<char>) -> bool {
        self.registered().contains(name) || !self.can_mint(name)
    }

    /// The floating counter can pass every registered name and still count on.
    pub open spec fn can_float(&self) -> bool {
        self.floating_watermark() + self.registered().len() < usize::MAX
    }

    /// `post` and `name` are what `new_label` leaves of `pre`: `name` is the
    /// first permanent name from the watermark on that was not registered; it
    /// is registered now, and the watermark stands just behind it. It is the
    /// name of no other number.
    pub open spec fn mints(pre: LabelManager, post: LabelManager, name: Seq<char>) -> bool {
        &&& pre.watermark() < post.watermark()
        &&& name == net_name((post.watermark() - 1) as nat)
        &&& !pre.registered().contains(name)
        &&& forall|j: nat|
            pre.watermark() <= j < post.watermark() - 1 ==> pre.registered().contains(
                #[trigger] net_name(j),
            )
        &&& post.registered() == pre.registered().insert(name)
        &&& post.floating_watermark() == pre.floating_watermark()
        &&& forall|j: nat| #[trigger] net_name(j) == name ==> j == post.watermark() - 1
    }

    /// `post` and `name` are what `new_floating_label` leaves of `pre`:
    /// `name` is the first floating name from the floating watermark on that
    /// is not registered; nothing is registered, and the floating watermark
    /// stands just behind it. It is the name of no other number.
    pub open spec fn floats(pre: LabelManager, post: LabelManager, name: Seq<char>) -> bool {
        &&& pre.floating_watermark() < post.floating_watermark()
        &&& name == floating_name((post.floating_watermark() - 1) as nat)
        &&& !pre.registered().contains(name)
        &&& forall|j: nat|
            pre.floating_watermark() <= j < post.floating_watermark() - 1
                ==> pre.registered().contains(#[trigger] floating_name(j))
        &&& post.registered() == pre.registered()
        &&& post.watermark() == pre.watermark()
        &&& forall|j: nat| #[trigger] floating_name(j) == name ==> j == post.floating_watermark() - 1
    }

    /// A manager with nothing registered and both counters at zero.
    pub fn new() -> (m: LabelManager)
        ensures
            m.wf(),
            m.registered() == Set::<Seq<char>>::empty(),
            m.watermark() == 0,
            m.floating_watermark() == 0,
    {
        let m = LabelManager { float_wm: 0, wm: 0, labels: Vec::new() };
        proof {
            lemma_names_of(m.labels@);
            assert(m.registered() =~= Set::<Seq<char>>::empty());
            lemma_net_ahead_step(m.registered(), 0);
        }
        m
    }

    /// Whether `name` is a permanent name in use.
    pub fn is_registered(&self, name: &String) -> (r: bool)
        ensures
            r == self.registered().contains(name@),
    {
        holds_name(&self.labels, name)
    }

    /// A permanent name that no call has returned before and that is not
    /// registered: the first free one from the watermark on. It is
    /// registered, so that no later call returns it.
    pub fn new_label(&mut self) -> (name: String)
        requires
            old(self).wf(),
        ensures
            final(self).wf(),
            LabelManager::mints(*old(self), *final(self), name@),
    {
        proof {
            lemma_names_of(self.labels@);
        }
        loop
            invariant
                self.labels == old(self).labels,
                self.float_wm == old(self).float_wm,
                old(self).wm <= self.wm,
                names_distinct(self.labels@),
                self.registered().finite(),
                forall|j: nat|
                    old(self).wm <= j < self.wm ==> self.registered().contains(
                        #[trigger] net_name(j),
                    ),
                self.wm + net_names_ahead(self.registered(), self.wm as nat).len()
                    <= self.labels@.len(),
            decreases net_names_ahead(self.registered(), self.wm as nat).len(),
        {
            let l = format_net_name(self.wm);
            let held: usize = self.labels.len();
            proof {
                lemma_net_ahead_step(self.registered(), self.wm as nat);
            }
            if !self.is_registered(&l) {
                let ghost before = self.labels@;
                self.labels.push(l.clone());
                let grown: usize = self.labels.len();
                proof {
                    lemma_names_of_push(before, l);
                    lemma_names_of(self.labels@);
                    lemma_distinct_push(before, l);
                    assert forall|j: nat| #[trigger] net_name(j) == l@ implies j == self.wm by {
                        lemma_net_name_injective(j, self.wm as nat);
                    }
                }
                self.wm = self.wm + 1;
                return l;
            }
            self.wm = self.wm + 1;
        }
    }

    /// Whether there is room for a floating name: whether the floating
    /// counter can pass every registered name and still count on.
    pub fn has_floating_room(&self) -> (r: bool)
        requires
            self.wf(),
        ensures
            r == self.can_float(),
    {
        proof {
            lemma_distinct_count(self.labels@);
        }
        self.float_wm < usize::MAX - self.labels.len()
    }

    /// A floating name that is not registered and that no call has returned
    /// since the floating names were last reset. Nothing is registered.
    pub fn new_floating_label(&mut self) -> (name: String)
        requires
            old(self).can_float(),
        ensures
            LabelManager::floats(*old(self), *final(self), name@),
            final(self).wf() == old(self).wf(),
    {
        proof {
            lemma_names_of(self.labels@);
            lemma_floating_ahead_step(self.registered(), self.float_wm as nat);
        }
        loop
            invariant
                self.labels == old(self).labels,
                self.wm == old(self).wm,
                old(self).float_wm <= self.float_wm,
                self.registered().finite(),
                forall|j: nat|
                    old(self).float_wm <= j < self.float_wm ==> self.registered().contains(
                        #[trigger] floating_name(j),
                    ),
                self.float_wm + floating_names_ahead(self.registered(), self.float_wm as nat).len()
                    < usize::MAX,
            decreases floating_names_ahead(self.registered(), self.float_wm as nat).len(),
        {
            let l = format_floating_name(self.float_wm);
            proof {
                lemma_floating_ahead_step(self.registered(), self.float_wm as nat);
                lemma_floating_ahead_step(self.registered(), (self.float_wm + 1) as nat);
            }
            let taken = self.is_registered(&l);
            proof {
                assert forall|j: nat| #[trigger] floating_name(j) == l@ implies j == self.float_wm by {
                    lemma_floating_name_injective(j, self.float_wm as nat);
                }
            }
            self.float_wm = self.float_wm + 1;
            if !taken {
                return l;
            }
        }
    }

    /// Starts the floating names over. Names given out before may be given
    /// out again.
    pub fn rst_floating_nets(&mut self)
        ensures
            final(self).floating_watermark() == 0,
            final(self).registered() == old(self).registered(),
            final(self).watermark() == old(self).watermark(),
            final(self).wf() == old(self).wf(),
    {
        self.float_wm = 0;
    }

    /// Admits a name from elsewhere into the registry, so that no later
    /// `new_label` returns it.
    pub fn register(&mut self, label: String)
        requires
            old(self).wf(),
        ensures
            final(self).wf(),
            final(self).registered() == old(self).registered().insert(label@),
            final(self).watermark() == old(self).watermark(),
            final(self).floating_watermark() == old(self).floating_watermark(),
    {
        proof {
            lemma_names_of(self.labels@);
        }
        if !self.is_registered(&label) {
            let ghost before = self.labels@;
            proof {
                lemma_net_ahead_insert(self.registered(), self.wm as nat, label@);
                lemma_names_of_push(before, label);
                lemma_distinct_push(before, label);
            }
            self.labels.push(label);
        } else {
            assert(self.registered().insert(label@) =~= self.registered());
        }
    }
}

} // verus!
