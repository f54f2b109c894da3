//! Which of the visible Metal devices compute, and in what order.
//!
//! A discrete device is preferred. Where there is one, integrated Intel devices stay out unless they
//! are asked for.
use vstd::prelude::*;
use vstd::string::*;

verus! {

/// What `str::to_lowercase` makes of a text.
pub uninterp spec fn lowercase(s: Seq<char>) -> Seq<char>;

/// `str::to_lowercase`: the result is the lowercase form of the text, which depends on the text alone.
#[verifier::external_body]
fn to_lowercase(s: &str) -> (r: String)
    ensures
        r@ == lowercase(s@),
{
    s.to_lowercase()
}

/// `word` stands in `text` at place `i`.
pub open spec fn stands_at(text: Seq<char>, word: Seq<char>, i: int) -> bool {
    0 <= i && i + word.len() <= text.len() && text.subrange(i, i + word.len()) == word
}

/// `word` stands somewhere in `text`.
pub open spec fn holds(text: Seq<char>, word: Seq<char>) -> bool {
    exists|i: int| #[trigger] stands_at(text, word, i)
}

/// Whether `word` stands in `text` at place `i`.
fn stands(text: &str, n: usize, word: &str, m: usize, i: usize) -> (r: bool)
    requires
        n == text@.len(),
        m == word@.len(),
        i <= n,
    ensures
        r == stands_at(text@, word@, i as int),
{
    if m > n - i {
        return false;
    }
    let mut k: usize = 0;
    while k < m
        invariant
            k <= m,
            n == text@.len(),
            m == word@.len(),
            i + m <= n,
            forall|j: int| 0 <= j < k ==> text@[i + j] == #[trigger] word@[j],
        decreases m - k,
    {
        if text.get_char(i + k) != word.get_char(k) {
            proof {
                let part = text@.subrange(i as int, i + word@.len());
                assert(part[k as int] == text@[i + k]);
            }
            return false;
        }
        k = k + 1;
    }
    assert(text@.subrange(i as int, i + word@.len()) =~= word@);
    true
}

/// Whether `word` stands somewhere in `text`.
pub fn contains(text: &str, word: &str) -> (r: bool)
    ensures
        r == holds(text@, word@),
{
    let n: usize = text.unicode_len();
    let m: usize = word.unicode_len();
    let mut i: usize = 0;
    while i < n
        invariant
            i <= n,
            n == text@.len(),
            m == word@.len(),
            forall|j: int| 0 <= j < i ==> !#[trigger] stands_at(text@, word@, j),
        decreases n - i,
    {
        if stands(text, n, word, m, i) {
            return true;
        }
        i = i + 1;
    }
    stands(text, n, word, m, n)
}

/// The score of a device, from its name in lowercase: discrete parts come before integrated ones.
pub open spec fn score_of(lower: Seq<char>, low_power: bool) -> int {
    let power: int = if low_power {
        0
    } else {
        1000
    };
    let amd: int = if holds(lower, "amd"@) || holds(lower, "radeon"@) {
        500
    } else {
        0
    };
    let apple: int = if holds(lower, "apple"@) {
        300
    } else {
        0
    };
    let nvidia: int = if holds(lower, "nvidia"@) || holds(lower, "geforce"@) || holds(
        lower,
        "quadro"@,
    ) {
        400
    } else {
        0
    };
    let intel: int = if holds(lower, "intel"@) {
        -300
    } else {
        0
    };
    power + amd + apple + nvidia + intel
}

/// The score of a device, from its name in lowercase.
pub fn score_lowered(lower: &str, low_power: bool) -> (r: i32)
    ensures
        r == score_of(lower@, low_power),
{
    let mut score: i32 = 0;
    if !low_power {
        score = score + 1000;
    }
    if contains(lower, "amd") || contains(lower, "radeon") {
        score = score + 500;
    }
    if contains(lower, "apple") {
        score = score + 300;
    }
    if contains(lower, "nvidia") || contains(lower, "geforce") || contains(lower, "quadro") {
        score = score + 400;
    }
    if contains(lower, "intel") {
        score = score - 300;
    }
    score
}

/// Scores a device so that discrete AMD and NVIDIA parts beat integrated Intel parts.
pub fn device_score(name: &str, low_power: bool) -> (r: i32)
    ensures
        r == score_of(lowercase(name@), low_power),
{
    let lower: String = to_lowercase(name);
    score_lowered(lower.as_str(), low_power)
}

/// The name is that of an Intel device.
pub open spec fn intel_name(name: Seq<char>) -> bool {
    holds(lowercase(name), "intel"@)
}

/// Whether the name is that of an Intel device.
pub fn is_intel(name: &str) -> (r: bool)
    ensures
        r == intel_name(name@),
{
    let lower: String = to_lowercase(name);
    contains(lower.as_str(), "intel")
}

/// Entry `a` comes before entry `b`: it scores higher, or the same and stands first.
pub open spec fn comes_before(scores: Seq<i32>, a: usize, b: usize) -> bool {
    scores[a as int] > scores[b as int] || (scores[a as int] == scores[b as int] && a < b)
}

/// `order` lists the first `n` entries, each once, the highest score first and equal ones as they
/// stand.
pub open spec fn ranks(scores: Seq<i32>, n: int, order: Seq<usize>) -> bool {
    &&& order.len() == n
    &&& forall|i: int| 0 <= i < order.len() ==> #[trigger] order[i] < n
    &&& forall|k: usize| k < n ==> #[trigger] order.contains(k)
    &&& forall|i: int, j: int|
        0 <= i < j < order.len() ==> comes_before(scores, #[trigger] order[i], #[trigger] order[j])
}

/// One more entry, put before the first that scores lower.
proof fn lemma_ranks_insert(scores: Seq<i32>, n: int, order: Seq<usize>, p: int)
    requires
        0 <= n < scores.len() <= usize::MAX,
        ranks(scores, n, order),
        0 <= p <= n,
        forall|i: int| 0 <= i < p ==> scores[(#[trigger] order[i]) as int] >= scores[n],
        p < n ==> scores[order[p] as int] < scores[n],
    ensures
        ranks(scores, n + 1, order.insert(p, n as usize)),
{
    let more = order.insert(p, n as usize);
    assert forall|i: int| 0 <= i < more.len() implies #[trigger] more[i] < n + 1 by {
        if i < p {
            assert(more[i] == order[i]);
        } else if i > p {
            assert(more[i] == order[i - 1]);
        }
    }
    assert forall|k: usize| k < n + 1 implies #[trigger] more.contains(k) by {
        if k == n {
            assert(more[p] == k);
        } else {
            assert(order.contains(k));
            let i = choose|i: int| 0 <= i < order.len() && order[i] == k;
            if i < p {
                assert(more[i] == k);
            } else {
                assert(more[i + 1] == k);
            }
        }
    }
    assert forall|i: int, j: int| 0 <= i < j < more.len() implies comes_before(
        scores,
        #[trigger] more[i],
        #[trigger] more[j],
    ) by {
        let a = if i < p {
            i
        } else {
            i - 1
        };
        let b = if j < p {
            j
        } else {
            j - 1
        };
        if i != p && j != p {
            assert(comes_before(scores, order[a], order[b]));
        } else if j == p {
            assert(more[i] == order[i]);
        } else {
            assert(more[j] == order[j - 1]);
            if j - 1 > p {
                assert(comes_before(scores, order[p], order[j - 1]));
            }
        }
    }
}

/// The entries by score, the highest first and equal ones as they stand.
pub fn ranking(scores: &[i32]) -> (order: Vec<usize>)
    ensures
        ranks(scores@, scores@.len() as int, order@),
{
    let mut order: Vec<usize> = Vec::new();
    let mut n: usize = 0;
    while n < scores.len()
        invariant
            n <= scores@.len(),
            ranks(scores@, n as int, order@),
        decreases scores@.len() - n,
    {
        let mut p: usize = 0;
        while p < n && scores[order[p]] >= scores[n]
            invariant
                p <= n < scores@.len(),
                ranks(scores@, n as int, order@),
                forall|i: int|
                    0 <= i < p ==> scores@[(#[trigger] order@[i]) as int] >= scores@[n as int],
            decreases n - p,
        {
            p = p + 1;
        }
        proof {
            lemma_ranks_insert(scores@, n as int, order@, p as int);
        }
        order.insert(p, n);
        n = n + 1;
    }
    order
}

/// Every ranking of the same scores is the same.
pub proof fn law_one_ranking(scores: Seq<i32>, n: int, a: Seq<usize>, b: Seq<usize>)
    requires
        ranks(scores, n, a),
        ranks(scores, n, b),
    ensures
        a == b,
{
    lemma_ranking_prefix(scores, n, a, b, n);
    assert(a =~= b);
}

proof fn lemma_ranking_prefix(scores: Seq<i32>, n: int, a: Seq<usize>, b: Seq<usize>, k: int)
    requires
        ranks(scores, n, a),
        ranks(scores, n, b),
        0 <= k <= n,
    ensures
        forall|i: int| 0 <= i < k ==> a[i] == b[i],
    decreases k,
{
    if k > 0 {
        lemma_ranking_prefix(scores, n, a, b, k - 1);
        let x = a[k - 1];
        let y = b[k - 1];
        assert(b.contains(x));
        assert(a.contains(y));
        let i = choose|i: int| 0 <= i < b.len() && b[i] == x;
        let j = choose|j: int| 0 <= j < a.len() && a[j] == y;
        if x != y {
            if i < k - 1 {
                assert(a[i] == x);
                assert(comes_before(scores, a[i], a[k - 1]));
            }
            if j < k - 1 {
                assert(b[j] == y);
                assert(comes_before(scores, b[j], b[k - 1]));
            }
            assert(comes_before(scores, y, b[i]));
            assert(comes_before(scores, x, a[j]));
        }
    }
}

/// A device that the process can see.
pub struct Visible {
    pub name: String,
    pub low_power: bool,
}

/// The scores of the visible devices.
pub open spec fn scores_of(devices: Seq<Visible>) -> Seq<i32> {
    Seq::new(
        devices.len(),
        |i: int| score_of(lowercase(devices[i].name@), devices[i].low_power) as i32,
    )
}

/// What [`Gpus`] is: the names of the devices, best first, and whether integrated ones compute.
pub ghost struct GpusModel {
    pub names: Seq<Seq<char>>,
    pub include_integrated: bool,
}

/// The visible devices, best first, and the policy on integrated ones.
pub struct Gpus {
    names: Vec<String>,
    include_integrated: bool,
}

impl View for Gpus {
    type V = GpusModel;

    closed spec fn view(&self) -> GpusModel {
        GpusModel {
            names: texts(self.names@),
            include_integrated: self.include_integrated,
        }
    }
}

/// What the texts of a list are.
pub open spec fn texts(v: Seq<String>) -> Seq<Seq<char>> {
    Seq::new(v.len(), |i: int| v[i]@)
}

impl Gpus {
    /// The visible devices in the order of their scores. Integrated ones stay out at first.
    pub fn new(devices: &[Visible]) -> (r: Self)
        ensures
            !r@.include_integrated,
            exists|order: Seq<usize>| #[trigger]
                ranks(scores_of(devices@), devices@.len() as int, order) && r@.names == Seq::new(
                    devices@.len(),
                    |i: int| devices@[order[i] as int].name@,
                ),
    {
        let mut scores: Vec<i32> = Vec::new();
        let mut i: usize = 0;
        while i < devices.len()
            invariant
                i <= devices@.len(),
                scores@ == scores_of(devices@).take(i as int),
            decreases devices@.len() - i,
        {
            let s: i32 = device_score(devices[i].name.as_str(), devices[i].low_power);
            scores.push(s);
            assert(scores@ =~= scores_of(devices@).take(i + 1));
            i = i + 1;
        }
        assert(scores@ =~= scores_of(devices@));
        let order: Vec<usize> = ranking(scores.as_slice());
        let mut names: Vec<String> = Vec::new();
        let mut k: usize = 0;
        while k < order.len()
            invariant
                k <= order@.len(),
                order@.len() == devices@.len(),
                ranks(scores_of(devices@), devices@.len() as int, order@),
                names@.len() == k,
                forall|j: int| 0 <= j < k ==> (#[trigger] names@[j])@ == devices@[order@[j] as int].name@,
            decreases order@.len() - k,
        {
            names.push(devices[order[k]].name.clone());
            k = k + 1;
        }
        let r: Gpus = Gpus { names, include_integrated: false };
        assert(r@.names =~= Seq::new(
            devices@.len(),
            |i: int| devices@[order@[i] as int].name@,
        ));
        r
    }
}

/// Whether one of the first `n` devices is no Intel device.
pub open spec fn any_discrete(intel: Seq<bool>) -> bool {
    exists|i: int| 0 <= i < intel.len() && !#[trigger] intel[i]
}

/// Those of the first `n` devices that compute: all of them where integrated ones are asked for or
/// where there is no other kind, and else those that are not Intel's.
pub open spec fn chosen_of(intel: Seq<bool>, all: bool, n: int) -> Seq<usize>
    decreases n,
{
    if n <= 0 {
        Seq::empty()
    } else {
        let rest = chosen_of(intel, all, n - 1);
        if all || !(intel[n - 1] && any_discrete(intel)) {
            rest.push((n - 1) as usize)
        } else {
            rest
        }
    }
}

/// The devices that compute, given which are Intel's.
pub fn chosen(intel: &[bool], all: bool) -> (r: Vec<usize>)
    ensures
        r@ == chosen_of(intel@, all, intel@.len() as int),
{
    let mut discrete: bool = false;
    let mut i: usize = 0;
    while i < intel.len()
        invariant
            i <= intel@.len(),
            discrete == exists|j: int| 0 <= j < i && !#[trigger] intel@[j],
        decreases intel@.len() - i,
    {
        if !intel[i] {
            discrete = true;
        }
        i = i + 1;
    }
    let mut r: Vec<usize> = Vec::new();
    let mut k: usize = 0;
    while k < intel.len()
        invariant
            k <= intel@.len(),
            discrete == any_discrete(intel@),
            r@ == chosen_of(intel@, all, k as int),
        decreases intel@.len() - k,
    {
        if all || !(intel[k] && discrete) {
            r.push(k);
        }
        k = k + 1;
    }
    r
}

/// Every device that computes is one of the first `n`.
pub proof fn lemma_chosen_range(intel: Seq<bool>, all: bool, n: int)
    requires
        0 <= n <= usize::MAX,
    ensures
        chosen_of(intel, all, n).len() <= n,
        forall|i: int|
            0 <= i < chosen_of(intel, all, n).len() ==> #[trigger] chosen_of(
                intel,
                all,
                n,
            )[i] < n,
    decreases n,
{
    if n > 0 {
        lemma_chosen_range(intel, all, n - 1);
    }
}

/// Where there is a device, one computes: a machine that has only integrated ones uses them.
pub proof fn law_some_device_computes(intel: Seq<bool>, all: bool)
    requires
        intel.len() > 0,
    ensures
        chosen_of(intel, all, intel.len() as int).len() > 0,
{
    if all || !any_discrete(intel) {
        lemma_chosen_at(intel, all, intel.len() as int, 0);
    } else {
        let i = choose|i: int| 0 <= i < intel.len() && !#[trigger] intel[i];
        lemma_chosen_at(intel, all, intel.len() as int, i);
    }
}

/// A device that is let in makes the list longer than nothing.
proof fn lemma_chosen_at(intel: Seq<bool>, all: bool, n: int, i: int)
    requires
        0 <= i < n,
        all || !(intel[i] && any_discrete(intel)),
    ensures
        chosen_of(intel, all, n).len() > 0,
    decreases n,
{
    if i < n - 1 {
        lemma_chosen_at(intel, all, n - 1, i);
    }
}

/// Which devices are Intel's.
pub open spec fn intel_of(names: Seq<Seq<char>>) -> Seq<bool> {
    Seq::new(names.len(), |i: int| intel_name(names[i]))
}

/// The devices that compute.
pub open spec fn eligible_of(m: GpusModel) -> Seq<usize> {
    chosen_of(intel_of(m.names), m.include_integrated, m.names.len() as int)
}

/// The names of the devices that compute, best first.
pub open spec fn eligible_names(m: GpusModel) -> Seq<Seq<char>> {
    Seq::new(eligible_of(m).len(), |i: int| m.names[eligible_of(m)[i] as int])
}

/// The numbers of the devices that compute, best first.
pub fn eligible_states(gpus: &Gpus) -> (r: Vec<usize>)
    ensures
        r@ == eligible_of(gpus@),
        forall|i: int| 0 <= i < r@.len() ==> #[trigger] r@[i] < gpus@.names.len(),
{
    let mut intel: Vec<bool> = Vec::new();
    let mut i: usize = 0;
    while i < gpus.names.len()
        invariant
            i <= gpus.names@.len(),
            intel@ == intel_of(gpus@.names).take(i as int),
        decreases gpus.names@.len() - i,
    {
        let b: bool = is_intel(gpus.names[i].as_str());
        intel.push(b);
        assert(gpus@.names[i as int] == gpus.names@[i as int]@);
        assert(intel@ =~= intel_of(gpus@.names).take(i + 1));
        i = i + 1;
    }
    proof {
        assert(intel@ =~= intel_of(gpus@.names));
        lemma_chosen_range(intel@, gpus.include_integrated, intel@.len() as int);
    }
    chosen(intel.as_slice(), gpus.include_integrated)
}

/// Lets large products run on Intel's integrated devices as well as on a discrete one, or not.
pub fn set_include_integrated(gpus: &mut Gpus, all: bool)
    ensures
        final(gpus)@ == (GpusModel { include_integrated: all, ..old(gpus)@ }),
{
    gpus.include_integrated = all;
}

/// Whether at least one device is visible.
pub fn gpu_available(gpus: &Gpus) -> (r: bool)
    ensures
        r == (gpus@.names.len() > 0),
{
    gpus.names.len() > 0
}

/// How many devices compute.
pub fn gpu_device_count(gpus: &Gpus) -> (r: usize)
    ensures
        r == eligible_of(gpus@).len(),
{
    eligible_states(gpus).len()
}

/// What an optional text is.
pub open spec fn text_view(r: Option<String>) -> Option<Seq<char>> {
    match r {
        Some(s) => Some(s@),
        None => None,
    }
}

/// The name of the device that a single product uses.
pub fn gpu_device_name(gpus: &Gpus) -> (r: Option<String>)
    ensures
        text_view(r) == if eligible_names(gpus@).len() > 0 {
            Some(eligible_names(gpus@)[0])
        } else {
            None
        },
{
    let v: Vec<usize> = eligible_states(gpus);
    if v.len() == 0 {
        return None;
    }
    assert(gpus@.names[v@[0] as int] == gpus.names@[v@[0] as int]@);
    Some(gpus.names[v[0]].clone())
}

/// The names of the devices that compute, best first.
pub fn gpu_device_names(gpus: &Gpus) -> (r: Vec<String>)
    ensures
        texts(r@) == eligible_names(gpus@),
{
    let v: Vec<usize> = eligible_states(gpus);
    let mut r: Vec<String> = Vec::new();
    let mut i: usize = 0;
    while i < v.len()
        invariant
            i <= v@.len(),
            v@ == eligible_of(gpus@),
            forall|j: int| 0 <= j < v@.len() ==> #[trigger] v@[j] < gpus@.names.len(),
            r@.len() == i,
            forall|j: int| 0 <= j < i ==> (#[trigger] r@[j])@ == gpus@.names[v@[j] as int],
        decreases v@.len() - i,
    {
        assert(v@[i as int] < gpus@.names.len());
        assert(gpus@.names[v@[i as int] as int] == gpus.names@[v@[i as int] as int]@);
        r.push(gpus.names[v[i]].clone());
        i = i + 1;
    }
    assert(texts(r@) =~= eligible_names(gpus@));
    r
}

/// The names of all visible devices, best first.
pub fn gpu_all_device_names(gpus: &Gpus) -> (r: Vec<String>)
    ensures
        texts(r@) == gpus@.names,
{
    let mut r: Vec<String> = Vec::new();
    let mut i: usize = 0;
    while i < gpus.names.len()
        invariant
            i <= gpus.names@.len(),
            r@.len() == i,
            forall|j: int| 0 <= j < i ==> (#[trigger] r@[j])@ == gpus.names@[j]@,
        decreases gpus.names@.len() - i,
    {
        r.push(gpus.names[i].clone());
        i = i + 1;
    }
    assert(texts(r@) =~= gpus@.names);
    r
}

} // verus!
