//! Priorities backed by list-range relabeling.
//!
//! Labels are plain integers below `2^64`, read as paths in a conceptual
//! binary tree over the label space: the window of size `2^i` around a label
//! is the aligned range sharing its upper `64 - i` bits. When the gap after
//! a priority is exhausted, the smallest enclosing window that is not
//! overfull (against a precomputed per-level capacity) is relabeled evenly.
//!
//! The first node of the ring is an ordinary priority here: a fresh universe
//! hands it straight to the caller.

use vstd::prelude::*;
use core::cmp::Ordering;
use crate::Saturated;
use crate::internal::{Arena, PriorityKey};
use crate::label::Label;

verus! {

/// Per-level window capacities: row `t` holds, for each level `i`,
/// `floor((2/T)^i)` for the density threshold `T = 1.1 + t/20`, computed
/// in double precision with exponentiation by squaring.
pub const CAPACITIES: [[u64; 64]; 17] = [
    // threshold 1.1
    [1, 1, 3, 6, 10, 19, 36, 65, 119, 217, 394, 717, 1305, 2372, 4314, 7844, 14262, 25931, 47148, 85725, 155864, 283389, 515253, 936824, 1703316, 3096939, 5630799, 10237817, 18614213, 33844024, 61534590, 111881073, 203420134, 369854789, 672463253, 1222660460, 2223019018, 4041852760, 7348823201, 13361496730, 24293630418, 44170237123, 80309522043, 146017312806, 265486023284, 482701860517, 877639746395, 1595708629810, 2901288417837, 5275069850613, 9591036092023, 17438247440043, 31705904436442, 57647098975350, 104812907227909, 190568922232562, 346488949513749, 629979908206816, 1145418014921484, 2082578208948154, 3786505834451189, 6884556062638524, 12517374659342768, 22758863016986852],
    // threshold 1.15
    [1, 1, 3, 5, 9, 15, 27, 48, 83, 145, 253, 440, 765, 1331, 2315, 4027, 7003, 12179, 21182, 36839, 64068, 111423, 193779, 337007, 586100, 1019304, 1772703, 3082962, 5361673, 9324649, 16216781, 28203097, 49048865, 85302375, 148351957, 258003403, 448701572, 780350560, 1357131409, 2360228537, 4104745282, 7138687447, 12415108605, 21591493226, 37550423002, 65305083482, 113574058229, 197520101268, 343513219598, 597414294953, 1038981382527, 1806924143525, 3142476771348, 5465176993649, 9504655641129, 16529835897616, 28747540691506, 49995722941750, 86949083376956, 151215797177315, 262983995090983, 457363469723450, 795414729953826, 1383329965137089],
    // threshold 1.2
    [1, 1, 2, 4, 7, 12, 21, 35, 59, 99, 165, 275, 459, 765, 1276, 2126, 3544, 5907, 9846, 16410, 27351, 45585, 75975, 126625, 211042, 351737, 586229, 977048, 1628414, 2714024, 4523373, 7538956, 12564927, 20941545, 34902576, 58170960, 96951601, 161586002, 269310003, 448850005, 748083342, 1246805571, 2078009285, 3463348809, 5772248015, 9620413359, 16034022265, 26723370443, 44538950738, 74231584564, 123719307607, 206198846012, 343664743354, 572774572256, 954624287094, 1591040478490, 2651734130817, 4419556884696, 7365928141161, 12276546901935, 20460911503225, 34101519172041, 56835865286736, 94726442144560],
    // threshold 1.25
    [1, 1, 2, 4, 6, 10, 16, 26, 42, 68, 109, 175, 281, 450, 720, 1152, 1844, 2951, 4722, 7555, 12089, 19342, 30948, 49517, 79228, 126765, 202824, 324518, 519229, 830767, 1329227, 2126764, 3402823, 5444517, 8711228, 13937965, 22300745, 35681192, 57089907, 91343852, 146150163, 233840261, 374144419, 598631070, 957809713, 1532495540, 2451992865, 3923188584, 6277101735, 10043362776, 16069380442, 25711008708, 41137613933, 65820182292, 105312291668, 168499666669, 269599466671, 431359146674, 690174634679, 1104279415486, 1766847064778, 2826955303645, 4523128485832, 7237005577332],
    // threshold 1.3
    [1, 1, 2, 3, 5, 8, 13, 20, 31, 48, 74, 114, 175, 270, 416, 640, 984, 1515, 2331, 3586, 5517, 8488, 13058, 20090, 30908, 47551, 73156, 112548, 173151, 266386, 409825, 630501, 970001, 1492310, 2295862, 3532096, 5433994, 8359990, 12861524, 19786960, 30441477, 46833043, 72050835, 110847439, 170534521, 262360802, 403632004, 620972314, 955342021, 1469756956, 2261164548, 3478714690, 5351868754, 8233644238, 12667144981, 19487915356, 29981408240, 46125243446, 70961912994, 109172173838, 167957190520, 258395677723, 397531811882, 611587402896],
    // threshold 1.35
    [1, 1, 2, 3, 4, 7, 10, 15, 23, 34, 50, 75, 111, 165, 245, 363, 538, 797, 1181, 1750, 2593, 3842, 5692, 8433, 12494, 18509, 27422, 40625, 60185, 89164, 132095, 195696, 289920, 429512, 636314, 942687, 1396574, 2068999, 3065184, 4541014, 6727428, 9966560, 14765275, 21874481, 32406639, 48009836, 71125682, 105371382, 156105751, 231267779, 342618933, 507583604, 751975710, 1114038089, 1650426799, 2445076740, 3622335911, 5366423572, 7950257144, 11778158733, 17449124049, 25850554146, 38297117254, 56736470006],
    // threshold 1.4
    [1, 1, 2, 2, 4, 5, 8, 12, 17, 24, 35, 50, 72, 103, 147, 210, 300, 429, 614, 877, 1253, 1790, 2557, 3653, 5219, 7456, 10652, 15217, 21739, 31056, 44366, 63381, 90544, 129349, 184784, 263978, 377112, 538731, 769616, 1099452, 1570646, 2243780, 3205400, 4579143, 6541633, 9345191, 13350273, 19071819, 27245455, 38922079, 55602971, 79432816, 113475451, 162107787, 231582554, 330832220, 472617457, 675167795, 964525422, 1377893461, 1968419230, 2812027471, 4017182102, 5738831574],
    // threshold 1.45
    [1, 1, 1, 2, 3, 4, 6, 9, 13, 18, 24, 34, 47, 65, 90, 124, 171, 236, 326, 450, 621, 856, 1181, 1630, 2248, 3101, 4277, 5900, 8138, 11225, 15483, 21356, 29456, 40629, 56041, 77298, 106618, 147059, 202841, 279780, 385904, 532281, 734181, 1012664, 1396779, 1926591, 2657367, 3665335, 5055634, 6973289, 9618329, 13266662, 18298844, 25239785, 34813496, 48018615, 66232573, 91355274, 126007274, 173803137, 239728465, 330659952, 456082693, 629079576],
    // threshold 1.5
    [1, 1, 1, 2, 3, 4, 5, 7, 9, 13, 17, 23, 31, 42, 56, 74, 99, 133, 177, 236, 315, 420, 560, 747, 996, 1328, 1771, 2362, 3149, 4199, 5599, 7466, 9954, 13273, 17697, 23596, 31462, 41950, 55933, 74577, 99437, 132583, 176777, 235703, 314271, 419028, 558704, 744938, 993251, 1324335, 1765780, 2354374, 3139166, 4185554, 5580739, 7440986, 9921315, 13228420, 17637893, 23517191, 31356255, 41808340, 55744454, 74325939],
    // threshold 1.55
    [1, 1, 1, 2, 2, 3, 4, 5, 7, 9, 12, 16, 21, 27, 35, 45, 59, 76, 98, 126, 163, 211, 272, 351, 453, 585, 755, 974, 1257, 1622, 2093, 2701, 3486, 4498, 5804, 7489, 9663, 12469, 16089, 20760, 26787, 34564, 44599, 57547, 74254, 95812, 123629, 159521, 205834, 265592, 342700, 442194, 570573, 736223, 949966, 1225762, 1581629, 2040811, 2633305, 3397813, 4384275, 5657129, 7299522, 9418738],
    // threshold 1.6
    [1, 1, 1, 1, 2, 3, 3, 4, 5, 7, 9, 11, 14, 18, 22, 28, 35, 44, 55, 69, 86, 108, 135, 169, 211, 264, 330, 413, 516, 646, 807, 1009, 1262, 1577, 1972, 2465, 3081, 3851, 4814, 6018, 7523, 9403, 11754, 14693, 18367, 22958, 28698, 35873, 44841, 56051, 70064, 87581, 109476, 136845, 171056, 213821, 267276, 334095, 417619, 522024, 652530, 815663, 1019578, 1274473],
    // threshold 1.65
    [1, 1, 1, 1, 2, 2, 3, 3, 4, 5, 6, 8, 10, 12, 14, 17, 21, 26, 31, 38, 46, 56, 68, 83, 101, 122, 148, 180, 218, 264, 320, 388, 471, 571, 692, 839, 1017, 1233, 1495, 1812, 2197, 2663, 3228, 3912, 4742, 5748, 6968, 8446, 10237, 12409, 15041, 18232, 22100, 26788, 32470, 39357, 47706, 57826, 70092, 84960, 102982, 124827, 151305, 183400],
    // threshold 1.7
    [1, 1, 1, 1, 1, 2, 2, 3, 3, 4, 5, 5, 7, 8, 9, 11, 13, 15, 18, 21, 25, 30, 35, 42, 49, 58, 68, 80, 94, 111, 131, 154, 181, 213, 251, 295, 347, 408, 480, 565, 665, 783, 921, 1083, 1275, 1500, 1764, 2076, 2442, 2873, 3381, 3977, 4679, 5505, 6477, 7620, 8964, 10546, 12408, 14597, 17173, 20204, 23769, 27964],
    // threshold 1.75
    [1, 1, 1, 1, 1, 1, 2, 2, 2, 3, 3, 4, 4, 5, 6, 7, 8, 9, 11, 12, 14, 16, 18, 21, 24, 28, 32, 36, 42, 48, 54, 62, 71, 81, 93, 107, 122, 139, 159, 182, 208, 238, 272, 311, 356, 407, 465, 531, 607, 694, 793, 906, 1036, 1184, 1353, 1547, 1768, 2020, 2309, 2639, 3016, 3447, 3940, 4502],
    // threshold 1.8
    [1, 1, 1, 1, 1, 1, 1, 2, 2, 2, 2, 3, 3, 3, 4, 4, 5, 5, 6, 7, 8, 9, 10, 11, 12, 13, 15, 17, 19, 21, 23, 26, 29, 32, 35, 39, 44, 49, 54, 60, 67, 75, 83, 92, 103, 114, 127, 141, 157, 174, 194, 215, 239, 266, 295, 328, 365, 405, 450, 500, 556, 618, 687, 763],
    // threshold 1.85
    [1, 1, 1, 1, 1, 1, 1, 1, 1, 2, 2, 2, 2, 2, 2, 3, 3, 3, 4, 4, 4, 5, 5, 6, 6, 7, 7, 8, 8, 9, 10, 11, 12, 13, 14, 15, 16, 17, 19, 20, 22, 24, 26, 28, 30, 33, 36, 39, 42, 45, 49, 53, 57, 62, 67, 72, 78, 85, 91, 99, 107, 116, 125, 135],
    // threshold 1.9
    [1, 1, 1, 1, 1, 1, 1, 1, 1, 1, 1, 1, 1, 1, 2, 2, 2, 2, 2, 2, 2, 2, 3, 3, 3, 3, 3, 3, 4, 4, 4, 4, 5, 5, 5, 6, 6, 6, 7, 7, 7, 8, 8, 9, 9, 10, 10, 11, 11, 12, 12, 13, 14, 15, 15, 16, 17, 18, 19, 20, 21, 22, 24, 25],
];

/// Labels strictly increase along the ring.
pub open spec fn labels_sorted(s: Seq<u64>) -> bool {
    forall|i: int, j: int| 0 <= i < j < s.len() ==> s[i] < s[j]
}

/// Every capacity row tops out well below the label space: the largest
/// occupancy any row admits fits in 61 bits.
proof fn lemma_capacity_top(t: int)
    requires
        0 <= t < 17,
    ensures
        CAPACITIES[t][63] <= 0x2000_0000_0000_0000,
        CAPACITIES[t][63] <= CAPACITIES[0int][63],
{
    assert(CAPACITIES[0int][63] == 22758863016986852);
    if t == 1 {
        assert(CAPACITIES[1int][63] == 1383329965137089);
    } else if t == 2 {
        assert(CAPACITIES[2int][63] == 94726442144560);
    } else if t == 3 {
        assert(CAPACITIES[3int][63] == 7237005577332);
    } else if t == 4 {
        assert(CAPACITIES[4int][63] == 611587402896);
    } else if t == 5 {
        assert(CAPACITIES[5int][63] == 56736470006);
    } else if t == 6 {
        assert(CAPACITIES[6int][63] == 5738831574);
    } else if t == 7 {
        assert(CAPACITIES[7int][63] == 629079576);
    } else if t == 8 {
        assert(CAPACITIES[8int][63] == 74325939);
    } else if t == 9 {
        assert(CAPACITIES[9int][63] == 9418738);
    } else if t == 10 {
        assert(CAPACITIES[10int][63] == 1274473);
    } else if t == 11 {
        assert(CAPACITIES[11int][63] == 183400);
    } else if t == 12 {
        assert(CAPACITIES[12int][63] == 27964);
    } else if t == 13 {
        assert(CAPACITIES[13int][63] == 4502);
    } else if t == 14 {
        assert(CAPACITIES[14int][63] == 763);
    } else if t == 15 {
        assert(CAPACITIES[15int][63] == 135);
    } else {
        assert(CAPACITIES[16int][63] == 25);
    }
}

/// A universe of priorities maintained by list-range relabeling.
pub struct Universe {
    pub(crate) arena: Arena,
}

impl Universe {
    /// The live keys, in positional order.
    pub open(crate) spec fn keys(self) -> Seq<usize> {
        self.arena.ring()
    }

    /// The labels of the live keys, in positional order.
    pub open(crate) spec fn labels(self) -> Seq<u64> {
        Seq::new(
            self.arena.ring().len(),
            |i: int| self.arena.node(self.arena.ring()[i]).label.0,
        )
    }

    /// Whether a key names a live priority of this universe.
    pub open(crate) spec fn contains(self, k: usize) -> bool {
        self.keys().contains(k)
    }

    /// The position of a live priority in the order.
    pub open(crate) spec fn pos(self, k: usize) -> int {
        self.keys().index_of(k)
    }

    /// How many handles point at a live priority.
    pub open(crate) spec fn ref_count(self, k: usize) -> int {
        self.arena.node(k).ref_count as int
    }

    /// The label of a live priority.
    pub open(crate) spec fn label_of(self, k: usize) -> int {
        self.arena.node(k).label.0 as int
    }

    /// An exclusive upper bound for new labels directly after `k`: the label
    /// of its successor, or one past the top of the label space when `k` is
    /// the last priority.
    pub open(crate) spec fn succ_bound(self, k: usize) -> int {
        if self.pos(k) + 1 == self.keys().len() {
            u64::MAX as int
        } else {
            self.labels()[self.pos(k) + 1] as int
        }
    }

    /// Well-formed universe: a structurally sound arena whose labels strictly
    /// increase along the ring, every node referenced at least once.
    pub open(crate) spec fn wf(self) -> bool {
        &&& self.arena.wf()
        &&& labels_sorted(self.labels())
        &&& forall|i: int| 0 <= i < self.labels().len() ==> #[trigger] self.labels()[i] < u64::MAX
        &&& forall|i: int|
            0 <= i < self.keys().len() ==> (#[trigger] self.arena.node(
                self.keys()[i],
            )).ref_count >= 1
    }

    /// Positions determine keys: two live priorities at the same position are
    /// the same priority.
    pub proof fn lemma_pos_injective(self, a: usize, b: usize)
        requires
            self.wf(),
            self.contains(a),
            self.contains(b),
        ensures
            0 <= self.pos(a) < self.keys().len(),
            self.keys()[self.pos(a)] == a,
            self.pos(a) == self.pos(b) <==> a == b,
    {
        self.arena.lemma_pos(a);
        self.arena.lemma_pos(b);
    }

    /// Create a fresh universe holding one priority, and hand that priority
    /// back.
    pub fn new() -> (r: (Universe, PriorityKey))
        ensures
            r.0.wf(),
            r.0.keys() == seq![r.1.0],
            r.0.ref_count(r.1.0) == 1,
    {
        let arena = Arena::new();
        let first = arena.base();
        let u = Universe { arena };
        proof {
            assert(u.keys() =~= seq![first.0]);
            assert(u.labels() =~= seq![u.arena.node(first.0).label.0]);
        }
        (u, first)
    }

    /// Number of live priorities in this universe.
    pub fn total(&self) -> (n: usize)
        requires
            self.wf(),
        ensures
            n == self.keys().len(),
    {
        self.arena.total()
    }

    /// Compare two priorities of this universe: the answer follows their
    /// positional order.
    pub fn compare(&self, a: PriorityKey, b: PriorityKey) -> (r: Ordering)
        requires
            self.wf(),
            self.contains(a.0),
            self.contains(b.0),
        ensures
            (r == Ordering::Equal) <==> a.0 == b.0,
            (r == Ordering::Less) <==> self.pos(a.0) < self.pos(b.0),
            (r == Ordering::Greater) <==> self.pos(a.0) > self.pos(b.0),
    {
        proof {
            self.lemma_pos_injective(a.0, b.0);
        }
        if a.0 == b.0 {
            Ordering::Equal
        } else {
            let la = self.arena.get(a).label.0;
            let lb = self.arena.get(b).label.0;
            proof {
                let pa = self.pos(a.0);
                let pb = self.pos(b.0);
                assert(la == self.labels()[pa] && lb == self.labels()[pb]);
                if pa < pb {
                    assert(la < lb);
                } else {
                    assert(lb < la);
                }
            }
            if la < lb {
                Ordering::Less
            } else {
                Ordering::Greater
            }
        }
    }

    /// The successor of a live priority, as read through the ring: its label
    /// is the next one in positional order, and a successor label at or below
    /// the priority's own marks the wrap back to the first node.
    proof fn lemma_next_of(self, k: usize)
        requires
            self.wf(),
            self.contains(k),
        ensures
            self.contains(self.arena.node(k).next.0),
            ({
                let tp = self.pos(k);
                let n = self.keys().len() as int;
                let nx = self.arena.node(k).next.0;
                &&& nx == self.keys()[if tp + 1 == n {
                    0int
                } else {
                    tp + 1
                }]
                &&& (self.arena.node(nx).label.0 <= self.arena.node(k).label.0 <==> tp + 1 == n)
                &&& tp + 1 < n ==> self.arena.node(nx).label.0 == self.labels()[tp + 1]
            }),
    {
        self.arena.lemma_pos(k);
        let tp = self.pos(k);
        let n = self.keys().len() as int;
        let nx = self.arena.node(k).next.0;
        assert(self.labels()[tp] == self.arena.node(k).label.0);
        if tp + 1 == n {
            assert(nx == self.keys()[0]);
            if n > 1 {
                assert(self.labels()[0] < self.labels()[tp]);
            }
        } else {
            assert(nx == self.keys()[tp + 1]);
            assert(self.labels()[tp] < self.labels()[tp + 1]);
        }
    }


    /// Number of handles pointing at a live priority.
    pub fn handle_count(&self, k: PriorityKey) -> (n: usize)
        requires
            self.wf(),
            self.contains(k.0),
        ensures
            n == self.ref_count(k.0),
    {
        proof {
            self.lemma_pos_injective(k.0, k.0);
        }
        self.arena.get(k).ref_count
    }

    /// Bump the reference count of a live priority; the order is untouched.
    pub fn clone_key(&mut self, k: PriorityKey)
        requires
            old(self).wf(),
            old(self).contains(k.0),
            old(self).ref_count(k.0) < usize::MAX,
        ensures
            final(self).wf(),
            final(self).keys() == old(self).keys(),
            final(self).ref_count(k.0) == old(self).ref_count(k.0) + 1,
            forall|x: usize|
                old(self).contains(x) && x != k.0 ==> final(self).ref_count(x) == old(self).ref_count(x),
    {
        self.arena.ref_inc(k);
        proof {
            assert(self.labels() =~= old(self).labels());
        }
    }

    /// Drop one handle of a live priority. With other handles left the order
    /// is untouched; dropping the last handle removes the priority.
    pub fn release(&mut self, k: PriorityKey)
        requires
            old(self).wf(),
            old(self).contains(k.0),
        ensures
            final(self).wf(),
            old(self).ref_count(k.0) > 1 ==> final(self).keys() == old(self).keys() && final(self).ref_count(k.0) == old(self).ref_count(k.0) - 1,
            old(self).ref_count(k.0) == 1 ==> final(self).keys() == old(self).keys().remove(
                old(self).pos(k.0),
            ),
            forall|x: usize|
                old(self).contains(x) && x != k.0 ==> final(self).contains(x) && final(self).ref_count(x) == old(self).ref_count(x),
    {
        proof {
            self.arena.lemma_pos(k.0);
        }
        let last = self.arena.ref_dec(k);
        proof {
            assert(self.labels() =~= old(self).labels());
        }
        if last {
            let ghost mid = *self;
            let ghost p = self.pos(k.0);
            self.arena.remove(k);
            proof {
                let r0 = mid.keys();
                let r = self.keys();
                r0.remove_ensures(p);
                assert forall|x: usize|
                    old(self).contains(x) && x != k.0 implies self.contains(x) by {
                    crate::internal::lemma_seq_remove_contains(r0, p, x);
                }
                assert forall|i: int, j: int|
                    0 <= i < j < self.labels().len() implies self.labels()[i]
                    < self.labels()[j] by {
                    let fi = if i < p {
                        i
                    } else {
                        i + 1
                    };
                    let fj = if j < p {
                        j
                    } else {
                        j + 1
                    };
                    assert(r[i] == r0[fi] && r[j] == r0[fj]);
                    assert(self.labels()[i] == mid.labels()[fi]);
                    assert(self.labels()[j] == mid.labels()[fj]);
                }
                assert forall|i: int| 0 <= i < self.labels().len() implies #[trigger] self.labels()[i]
                    < u64::MAX by {
                    let fi = if i < p {
                        i
                    } else {
                        i + 1
                    };
                    assert(r[i] == r0[fi]);
                    assert(self.labels()[i] == mid.labels()[fi]);
                }
                assert forall|i: int|
                    0 <= i < self.keys().len() implies (#[trigger] self.arena.node(
                    self.keys()[i],
                )).ref_count >= 1 by {
                    let fi = if i < p {
                        i
                    } else {
                        i + 1
                    };
                    assert(self.keys()[i] == r0[fi]);
                }
            }
        }
    }

    /// Relabel the smallest enclosing window of `this` that is neither
    /// overfull nor too dense to re-space generously. Afterwards the gap
    /// after `this` holds at least two free labels.
    fn do_relabel(&mut self, this: PriorityKey, t_index: usize)
        requires
            old(self).wf(),
            old(self).contains(this.0),
            t_index < 17,
            old(self).keys().len() + 1 < CAPACITIES[t_index as int][63],
        ensures
            final(self).wf(),
            final(self).keys() == old(self).keys(),
            forall|x: usize|
                old(self).contains(x) ==> final(self).ref_count(x) == old(self).ref_count(x),
            final(self).label_of(this.0) + 2 <= final(self).succ_bound(this.0),
    {
        proof {
            self.arena.lemma_pos(this.0);
            lemma_capacity_top(t_index as int);
        }
        let ghost keys0 = self.keys();
        let ghost labels0 = self.labels();
        let ghost n = keys0.len() as int;
        let ghost tpos = self.pos(this.0);

        let this_lab = self.arena.get(this).label.0;
        let mut i: u64 = 0;
        let mut range_size: u64 = 1;
        let mut range_count: usize = 1;
        let mut internal_node_tag: u64 = this_lab;
        // the window is [min_lab, max_lab], inclusive on both ends
        let mut min_lab: u64 = this_lab;
        let mut max_lab: u64 = this_lab;
        let mut begin: PriorityKey = this;
        let mut end: PriorityKey = this;
        let ghost mut b: int = tpos;
        let ghost mut e: int = tpos;

        proof {
            assert(1u64 << 0u64 == 1) by (bit_vector);
            assert(this_lab >> 0u64 == this_lab && this_lab << 0u64 == this_lab) by (bit_vector);
            assert(labels0[tpos] == this_lab);
        }

        // Find the smallest enclosing window whose density leaves room to
        // re-space with at least a few labels between any two neighbours.
        loop
            invariant
                self == old(self),
                self.wf(),
                self.contains(this.0),
                t_index < 17,
                keys0 == self.keys(),
                labels0 == self.labels(),
                n == keys0.len() as int,
                n + 1 < CAPACITIES[t_index as int][63],
                CAPACITIES[t_index as int][63] <= 0x2000_0000_0000_0000,
                tpos == self.pos(this.0),
                labels0[tpos] == this_lab,
                i <= 63,
                range_size == 1u64 << i,
                internal_node_tag == this_lab >> i,
                min_lab == internal_node_tag << i,
                max_lab == min_lab + range_size - 1,
                min_lab <= this_lab <= max_lab,
                0 <= b <= tpos <= e < n,
                begin.0 == keys0[b],
                end.0 == keys0[e],
                range_count == e - b + 1,
                forall|x: int| b <= x <= e ==> min_lab <= #[trigger] labels0[x] <= max_lab,
            ensures
                self == old(self),
                i <= 63,
                range_size == 1u64 << i,
                max_lab == min_lab + range_size - 1,
                min_lab <= this_lab <= max_lab,
                0 <= b <= tpos <= e < n,
                begin.0 == keys0[b],
                end.0 == keys0[e],
                range_count == e - b + 1,
                forall|x: int| b <= x <= e ==> min_lab <= #[trigger] labels0[x] <= max_lab,
                b == 0 || labels0[b - 1] < min_lab,
                e == n - 1 || labels0[e + 1] > max_lab,
                (range_count as int) < CAPACITIES[t_index as int][i as int],
                3 * range_count as int <= range_size as int,
            decreases 64 - i,
        {
            // extend backward over predecessors whose label lies in the window
            loop
                invariant
                    self == old(self),
                    self.wf(),
                    keys0 == self.keys(),
                    labels0 == self.labels(),
                    n == keys0.len() as int,
                    0 <= b <= tpos <= e < n,
                    begin.0 == keys0[b],
                    end.0 == keys0[e],
                    range_count == e - b + 1,
                    min_lab <= this_lab <= max_lab,
                    forall|x: int| b <= x <= e ==> min_lab <= #[trigger] labels0[x] <= max_lab,
                ensures
                    self == old(self),
                    0 <= b <= tpos,
                    begin.0 == keys0[b],
                    range_count == e - b + 1,
                    forall|x: int| b <= x <= e ==> min_lab <= #[trigger] labels0[x] <= max_lab,
                    b == 0 || labels0[b - 1] < min_lab,
                decreases b,
            {
                proof {
                    assert(self.contains(begin.0));
                }
                let nb_key = self.arena.get(begin).prev;
                proof {
                    assert(nb_key.0 == keys0[if b == 0 {
                        n - 1
                    } else {
                        b - 1
                    }]);
                    assert(self.contains(nb_key.0));
                }
                let nb_lab = self.arena.get(nb_key).label.0;
                let begin_lab = self.arena.get(begin).label.0;
                proof {
                    assert(begin_lab == labels0[b]);
                    if b == 0 {
                        if n == 1 {
                            assert(nb_lab == begin_lab);
                        } else {
                            assert(nb_lab == labels0[n - 1]);
                            assert(labels0[0] < labels0[n - 1]);
                        }
                    } else {
                        assert(nb_lab == labels0[b - 1]);
                        assert(labels0[b - 1] < labels0[b]);
                    }
                }
                if nb_lab < min_lab || nb_lab >= begin_lab {
                    break;
                }
                range_count = range_count + 1;
                begin = nb_key;
                proof {
                    b = b - 1;
                }
            }
            // extend forward over successors whose label lies in the window
            loop
                invariant
                    self == old(self),
                    self.wf(),
                    keys0 == self.keys(),
                    labels0 == self.labels(),
                    n == keys0.len() as int,
                    0 <= b <= tpos <= e < n,
                    begin.0 == keys0[b],
                    end.0 == keys0[e],
                    range_count == e - b + 1,
                    min_lab <= this_lab <= max_lab,
                    forall|x: int| b <= x <= e ==> min_lab <= #[trigger] labels0[x] <= max_lab,
                ensures
                    self == old(self),
                    tpos <= e < n,
                    end.0 == keys0[e],
                    range_count == e - b + 1,
                    forall|x: int| b <= x <= e ==> min_lab <= #[trigger] labels0[x] <= max_lab,
                    e == n - 1 || labels0[e + 1] > max_lab,
                decreases n - e,
            {
                proof {
                    assert(self.contains(end.0));
                }
                let ne_key = self.arena.get(end).next;
                proof {
                    assert(ne_key.0 == keys0[if e + 1 == n {
                        0int
                    } else {
                        e + 1
                    }]);
                    assert(self.contains(ne_key.0));
                }
                let ne_lab = self.arena.get(ne_key).label.0;
                let end_lab = self.arena.get(end).label.0;
                proof {
                    assert(end_lab == labels0[e]);
                    if e + 1 == n {
                        if n == 1 {
                            assert(ne_lab == end_lab);
                        } else {
                            assert(ne_lab == labels0[0]);
                            assert(labels0[0] < labels0[e]);
                        }
                    } else {
                        assert(ne_lab == labels0[e + 1]);
                        assert(labels0[e] < labels0[e + 1]);
                    }
                }
                if ne_lab > max_lab || ne_lab <= end_lab {
                    break;
                }
                range_count = range_count + 1;
                end = ne_key;
                proof {
                    e = e + 1;
                }
            }
            // accept the window when it is not overfull and re-spacing it
            // leaves at least a couple of free labels between neighbours
            if (range_count as u64) < CAPACITIES[t_index][i as usize] && (range_count as u64)
                <= range_size / 3 {
                break;
            }
            proof {
                // at the top level both conditions must hold, so the climb
                // stays below it
                if i == 63 {
                    assert(1u64 << 63u64 == 0x8000_0000_0000_0000) by (bit_vector);
                    assert(range_count as int <= n);
                    assert((range_count as int) < CAPACITIES[t_index as int][63]);
                    assert(3 * range_count as int <= 3 * (n + 1));
                    assert(3 * (n + 1) <= 3 * 0x2000_0000_0000_0000);
                    assert(range_count as u64 <= range_size / 3);
                    assert(false);
                }
                lemma_window_climb(this_lab, i, (i + 1) as u64);
            }
            i = i + 1;
            range_size = range_size * 2;
            internal_node_tag = internal_node_tag >> 1u64;
            min_lab = internal_node_tag << i;
            max_lab = min_lab + (range_size - 1);
        }

        // Re-space the window: spread its occupants evenly from its low end,
        // distributing the remainder one extra label at a time.
        let gap: u64 = range_size / (range_count as u64);
        let mut rem: u64 = range_size % (range_count as u64);
        let ghost gap_i = gap as int;
        let ghost rem0 = rem as int;
        let ghost count = range_count as int;
        proof {
            vstd::arithmetic::div_mod::lemma_fundamental_div_mod(
                range_size as int,
                range_count as int,
            );
            assert(gap_i >= 3 && rem0 < count) by {
                assert(3 * count <= range_size as int);
                vstd::arithmetic::div_mod::lemma_div_is_ordered(
                    3 * count,
                    range_size as int,
                    count,
                );
                vstd::arithmetic::div_mod::lemma_div_multiples_vanish(3, count);
                assert(count * 3 == 3 * count) by (nonlinear_arith);
            }
            lemma_respaced(min_lab as int, gap_i, rem0, count, range_size as int);
        }
        let mut k: usize = 0;
        let mut node_key: PriorityKey = begin;
        let mut new_label: u64 = min_lab;
        while k < range_count
            invariant
                self.arena.wf(),
                self.keys() == keys0,
                self.arena.spec_base() == old(self).arena.spec_base(),
                n == keys0.len() as int,
                0 <= b <= tpos <= e < n,
                range_count == e - b + 1,
                count == range_count as int,
                gap_i == gap as int,
                0 <= rem0 < count,
                3 <= gap_i,
                min_lab <= this_lab <= max_lab,
                max_lab == min_lab + range_size - 1,
                range_size as int == count * gap_i + rem0,
                0 <= k <= range_count,
                k < range_count ==> node_key.0 == keys0[b + k],
                k < range_count ==> new_label as int == respaced(min_lab as int, gap_i, rem0, k as int),
                rem as int == rem0 - (if k < rem0 { k as int } else { rem0 }),
                forall|x: int|
                    0 <= x < n && !(b <= x < b + k) ==> #[trigger] self.labels()[x] == labels0[x],
                forall|x: int|
                    b <= x < b + k ==> #[trigger] self.labels()[x] == respaced(
                        min_lab as int,
                        gap_i,
                        rem0,
                        x - b,
                    ),
                forall|x: usize|
                    keys0.contains(x) ==> #[trigger] self.arena.node(x).ref_count == old(
                        self,
                    ).arena.node(x).ref_count,
            decreases range_count - k,
        {
            proof {
                lemma_respaced(min_lab as int, gap_i, rem0, count, range_size as int);
                assert(keys0.contains(keys0[b + k]));
                assert(new_label as int <= min_lab + range_size as int - gap_i);
            }
            let ghost before = *self;
            self.arena.relabel(node_key, Label(new_label));
            proof {
                assert forall|x: int|
                    0 <= x < n && x != b + k implies #[trigger] self.labels()[x]
                    == before.labels()[x] by {
                    assert(keys0[x] != keys0[b + k]);
                    assert(self.arena.node(keys0[x]) == before.arena.node(keys0[x]));
                }
                assert(self.labels()[b + k] == new_label);
            }
            let nx = self.arena.get(node_key).next;
            proof {
                assert(nx.0 == keys0[if b + k + 1 == n {
                    0int
                } else {
                    b + k + 1
                }]);
            }
            node_key = nx;
            k = k + 1;
            if k < range_count {
                proof {
                    lemma_respaced(min_lab as int, gap_i, rem0, count, range_size as int);
                    lemma_respaced_step(min_lab as int, gap_i, rem0, k as int);
                    assert(respaced(min_lab as int, gap_i, rem0, k as int) <= min_lab + range_size
                        - gap_i);
                }
                new_label = new_label + gap;
                if rem > 0 {
                    new_label = new_label + 1;
                    rem = rem - 1;
                }
            }
        }

        proof {
            let labels1 = self.labels();
            // the re-spaced window stays inside its bounds and strictly
            // increases; the rest of the ring is untouched
            assert forall|x: int, y: int| 0 <= x < y < n implies #[trigger] labels1[x]
                < #[trigger] labels1[y] by {
                if x < b && y < b {
                    assert(labels1[x] == labels0[x] && labels1[y] == labels0[y]);
                } else if x > e && y > e {
                    assert(labels1[x] == labels0[x] && labels1[y] == labels0[y]);
                } else if x < b && b <= y <= e {
                    assert(labels1[x] == labels0[x]);
                    assert(labels0[x] <= labels0[b - 1]);
                    assert(labels1[y] == respaced(min_lab as int, gap_i, rem0, y - b));
                    assert(labels1[y] >= min_lab);
                } else if x < b && y > e {
                    assert(labels1[x] == labels0[x] && labels1[y] == labels0[y]);
                } else if b <= x <= e && b <= y <= e {
                    lemma_respaced_increasing(min_lab as int, gap_i, rem0, count, x - b, y - b);
                } else {
                    assert(b <= x <= e && y > e);
                    assert(labels1[x] <= min_lab + range_size - gap_i);
                    assert(labels1[y] == labels0[y]);
                    assert(labels0[y] >= labels0[e + 1]);
                }
            }
            assert forall|x: int| 0 <= x < n implies #[trigger] labels1[x] < u64::MAX by {
                if b <= x <= e {
                    assert(labels1[x] <= min_lab + range_size - gap_i);
                } else {
                    assert(labels1[x] == labels0[x]);
                }
            }
            // the gap after `this` now holds at least two free labels
            self.arena.lemma_pos(this.0);
            assert(self.pos(this.0) == tpos) by {
                assert(self.keys() == keys0);
            }
            if tpos < e {
                assert(labels1[tpos] == respaced(min_lab as int, gap_i, rem0, tpos - b));
                assert(labels1[tpos + 1] == respaced(min_lab as int, gap_i, rem0, tpos + 1 - b));
                lemma_respaced_increasing(min_lab as int, gap_i, rem0, count, tpos - b, tpos + 1 - b);
            } else {
                assert(tpos == e);
                assert(labels1[e] <= min_lab + range_size - gap_i);
                if tpos == n - 1 {
                    assert(min_lab + range_size - gap_i + 2 <= u64::MAX as int);
                } else {
                    assert(labels1[e + 1] == labels0[e + 1]);
                    assert(labels0[e + 1] > max_lab);
                }
            }
        }
    }

    /// Allocate a new priority directly after `p`: greater than `p`, and less
    /// than every priority that was greater than `p`. Fails exactly when the
    /// gap after `p` is exhausted and even the loosest capacity row has no
    /// room for one more priority: the universe is saturated. A failed insert
    /// leaves the universe untouched.
    #[verifier::rlimit(50)]
    pub fn insert(&mut self, p: PriorityKey) -> (r: Result<PriorityKey, Saturated>)
        requires
            old(self).wf(),
            old(self).contains(p.0),
            old(self).keys().len() < usize::MAX,
        ensures
            final(self).wf(),
            r is Err <==> (old(self).succ_bound(p.0) == old(self).label_of(p.0) + 1 && old(
                self,
            ).keys().len() + 1 >= CAPACITIES[0int][63]),
            match r {
                Ok(q) => {
                    &&& !old(self).contains(q.0)
                    &&& final(self).keys() == old(self).keys().insert(
                        old(self).pos(p.0) + 1,
                        q.0,
                    )
                    &&& final(self).ref_count(q.0) == 1
                    &&& forall|x: usize|
                        old(self).contains(x) ==> #[trigger] final(self).ref_count(x) == old(
                            self,
                        ).ref_count(x)
                },
                Err(_) => *final(self) == *old(self),
            },
    {
        proof {
            self.arena.lemma_pos(p.0);
            self.lemma_next_of(p.0);
        }
        let ghost n0 = self.keys().len() as int;
        let ghost tp = self.pos(p.0);
        let this_lab0 = self.arena.get(p).label.0;
        let next_key0 = self.arena.get(p).next;
        let next_raw0 = self.arena.get(next_key0).label.0;
        let next_lab0 = if next_raw0 <= this_lab0 {
            u64::MAX
        } else {
            next_raw0
        };
        proof {
            assert(this_lab0 == self.labels()[tp]);
            assert(next_lab0 as int == self.succ_bound(p.0));
        }
        if next_lab0 - this_lab0 == 1 {
            // the gap after `p` is exhausted: make room first
            match threshold_index(self.arena.total()) {
                None => {
                    return Err(Saturated);
                },
                Some(t_index) => {
                    proof {
                        lemma_capacity_top(t_index as int);
                    }
                    self.do_relabel(p, t_index);
                },
            }
        }
        // allocate at the midpoint of the gap after `p`
        proof {
            assert(self.pos(p.0) == tp);
            self.arena.lemma_pos(p.0);
            self.lemma_next_of(p.0);
        }
        let this_lab = self.arena.get(p).label.0;
        let next_key = self.arena.get(p).next;
        let next_raw = self.arena.get(next_key).label.0;
        let next_lab = if next_raw <= this_lab {
            u64::MAX
        } else {
            next_raw
        };
        proof {
            assert(this_lab as int == self.label_of(p.0));
            assert(next_lab as int == self.succ_bound(p.0));
            assert(this_lab as int + 2 <= next_lab as int);
        }
        let mid = Label(this_lab).midpoint(Label(next_lab));
        proof {
            assert(this_lab < mid.0 < next_lab);
        }
        let ghost pre = *self;
        let q = self.arena.insert_after(mid, p);
        proof {
            let keys1 = pre.keys();
            let labels1 = pre.labels();
            let keys2 = self.keys();
            let labels2 = self.labels();
            keys1.insert_ensures(tp + 1, q.0);
            assert(labels2.len() == n0 + 1);
            assert forall|x: int| 0 <= x < n0 + 1 implies #[trigger] labels2[x] == (if x < tp + 1 {
                labels1[x]
            } else if x == tp + 1 {
                mid.0
            } else {
                labels1[x - 1]
            }) by {
                if x < tp + 1 {
                    assert(keys2[x] == keys1[x]);
                    assert(keys1.contains(keys1[x]));
                } else if x == tp + 1 {
                    assert(keys2[x] == q.0);
                } else {
                    assert(keys2[x] == keys1[x - 1]);
                    assert(keys1.contains(keys1[x - 1]));
                }
            }
            assert(labels_sorted(labels2)) by {
                assert forall|x: int, y: int| 0 <= x < y < labels2.len() implies labels2[x]
                    < labels2[y] by {
                    if y < tp + 1 {
                        assert(labels2[x] == labels1[x] && labels2[y] == labels1[y]);
                    } else if y == tp + 1 {
                        assert(labels2[y] == mid.0);
                        assert(labels2[x] == labels1[x]);
                        if x < tp {
                            assert(labels1[x] < labels1[tp]);
                        }
                    } else {
                        assert(labels2[y] == labels1[y - 1]);
                        if x < tp + 1 {
                            assert(labels2[x] == labels1[x]);
                            if x < y - 1 {
                                assert(labels1[x] < labels1[y - 1]);
                            }
                        } else if x == tp + 1 {
                            assert(labels2[x] == mid.0);
                            assert(tp + 1 < n0);
                            assert(next_lab == labels1[tp + 1]);
                            assert(labels1[tp + 1] <= labels1[y - 1]);
                        } else {
                            assert(labels2[x] == labels1[x - 1]);
                            assert(labels1[x - 1] < labels1[y - 1]);
                        }
                    }
                }
            }
            assert forall|x: int| 0 <= x < labels2.len() implies #[trigger] labels2[x]
                < u64::MAX by {}
            assert forall|x: int|
                0 <= x < keys2.len() implies (#[trigger] self.arena.node(
                keys2[x],
            )).ref_count >= 1 by {
                if x != tp + 1 {
                    let fx = if x < tp + 1 {
                        x
                    } else {
                        x - 1
                    };
                    assert(keys2[x] == keys1[fx]);
                    assert(keys1.contains(keys1[fx]));
                }
            }
            assert forall|x: usize| old(self).contains(x) implies #[trigger] self.ref_count(x)
                == old(self).ref_count(x) by {}
        }
        Ok(q)
    }
}

/// The order that `compare` decides — positional order — is a strict total
/// order on the live priorities of a universe: it never relates a priority to
/// itself, it relates any two distinct priorities one way exactly, and it is
/// transitive.
pub proof fn lemma_order_is_total(u: Universe, a: usize, b: usize, c: usize)
    requires
        u.wf(),
        u.contains(a),
        u.contains(b),
        u.contains(c),
    ensures
        !(u.pos(a) < u.pos(a)),
        a != b ==> (u.pos(a) < u.pos(b) <==> !(u.pos(b) < u.pos(a))),
        u.pos(a) < u.pos(b) && u.pos(b) < u.pos(c) ==> u.pos(a) < u.pos(c),
{
    u.lemma_pos_injective(a, b);
    u.lemma_pos_injective(b, c);
}

/// The priority at an earlier position compares less: positional order is
/// what `compare` answers, for every pair of positions.
pub proof fn lemma_positional_order(u: Universe, i: int, j: int)
    requires
        u.wf(),
        0 <= i < j < u.keys().len(),
    ensures
        u.contains(u.keys()[i]),
        u.contains(u.keys()[j]),
        u.pos(u.keys()[i]) == i,
        u.pos(u.keys()[j]) == j,
        u.pos(u.keys()[i]) < u.pos(u.keys()[j]),
{
    let ks = u.keys();
    assert(ks.contains(ks[i]));
    assert(ks.contains(ks[j]));
    u.lemma_pos_injective(ks[i], ks[j]);
    assert(ks[ks.index_of(ks[i])] == ks[i]);
}

/// A fresh insert lands directly after its parent: the parent compares less
/// than the new priority, and every priority that was greater than the parent
/// is still greater than the new priority.
pub proof fn lemma_insert_adjacent(u0: Universe, u1: Universe, p: usize, q: usize)
    requires
        u0.wf(),
        u0.contains(p),
        !u0.contains(q),
        u1.keys() == u0.keys().insert(u0.pos(p) + 1, q),
    ensures
        u1.contains(p),
        u1.contains(q),
        u1.pos(p) == u0.pos(p),
        u1.pos(q) == u0.pos(p) + 1,
        u1.pos(p) < u1.pos(q),
        forall|x: usize|
            u0.contains(x) && u0.pos(p) < #[trigger] u0.pos(x) ==> u1.contains(x) && u1.pos(q)
                < u1.pos(x),
{
    u0.lemma_pos_injective(p, p);
    let ip = u0.pos(p) + 1;
    crate::internal::lemma_insert_index_map(u0.keys(), u1.keys(), ip, q, p);
    assert forall|x: usize|
        u0.contains(x) && u0.pos(p) < #[trigger] u0.pos(x) implies u1.contains(x) && u1.pos(q)
        < u1.pos(x) by {
        u0.lemma_pos_injective(x, p);
        crate::internal::lemma_insert_index_map(u0.keys(), u1.keys(), ip, q, x);
    }
}

/// An insert never reorders the surviving priorities: whatever compared less
/// before still compares less.
pub proof fn lemma_insert_stable(u0: Universe, u1: Universe, p: usize, q: usize, a: usize, b: usize)
    requires
        u0.wf(),
        u0.contains(p),
        !u0.contains(q),
        u1.keys() == u0.keys().insert(u0.pos(p) + 1, q),
        u0.contains(a),
        u0.contains(b),
        u0.pos(a) < u0.pos(b),
    ensures
        u1.contains(a),
        u1.contains(b),
        u1.pos(a) < u1.pos(b),
{
    u0.lemma_pos_injective(p, p);
    let ip = u0.pos(p) + 1;
    crate::internal::lemma_insert_index_map(u0.keys(), u1.keys(), ip, q, a);
    crate::internal::lemma_insert_index_map(u0.keys(), u1.keys(), ip, q, b);
}

/// Dropping a priority never reorders the survivors.
pub proof fn lemma_release_stable(u0: Universe, u1: Universe, k: usize, a: usize, b: usize)
    requires
        u0.wf(),
        u0.contains(k),
        u1.keys() == u0.keys().remove(u0.pos(k)),
        u0.contains(a),
        u0.contains(b),
        a != k,
        b != k,
        u0.pos(a) < u0.pos(b),
    ensures
        u1.contains(a),
        u1.contains(b),
        u1.pos(a) < u1.pos(b),
{
    u0.lemma_pos_injective(k, k);
    u0.lemma_pos_injective(a, b);
    crate::internal::lemma_remove_index_map(u0.keys(), u1.keys(), u0.pos(k), a);
    crate::internal::lemma_remove_index_map(u0.keys(), u1.keys(), u0.pos(k), b);
}

/// Find the tightest capacity row that still has room for one more priority,
/// judged by the row's top-level capacity (its declared maximum occupancy).
fn threshold_index(total: usize) -> (r: Option<usize>)
    ensures
        match r {
            Some(t) => t < 17 && total + 1 < CAPACITIES[t as int][63],
            None => total + 1 >= CAPACITIES[0int][63],
        },
{
    let mut i: usize = 17;
    while i > 0
        invariant
            i <= 17,
            forall|t: int| i <= t < 17 ==> total + 1 >= CAPACITIES[t][63],
        decreases i,
    {
        i = i - 1;
        if (total as u64) < u64::MAX && (total as u64) + 1 < CAPACITIES[i][63] {
            return Some(i);
        }
    }
    None
}

/// The label written for the `k`-th occupant of a re-spaced window starting
/// at `min`: even steps of `gap`, with the remainder spread one label at a
/// time over the first `rem` steps.
pub open spec fn respaced(min: int, gap: int, rem: int, k: int) -> int {
    min + k * gap + if k < rem {
        k
    } else {
        rem
    }
}

/// Bounds of the re-spaced labels: they never leave the window, and each
/// step advances by at least `gap`.
proof fn lemma_respaced(min: int, gap: int, rem: int, count: int, size: int)
    requires
        1 <= count,
        1 <= gap,
        0 <= rem < count,
        size == count * gap + rem,
    ensures
        respaced(min, gap, rem, 0) == min,
        forall|k: int| 0 <= k < count ==> #[trigger] respaced(min, gap, rem, k) <= min + size - gap,
{
    assert forall|k: int| 0 <= k < count implies #[trigger] respaced(min, gap, rem, k) <= min + size
        - gap by {
        assert(k * gap <= (count - 1) * gap) by (nonlinear_arith)
            requires
                k <= count - 1,
                gap >= 0,
        ;
        assert((count - 1) * gap == count * gap - gap) by (nonlinear_arith);
    }
}

/// One step of the re-spacing advances by exactly `gap`, plus one while the
/// remainder is being spread.
proof fn lemma_respaced_step(min: int, gap: int, rem: int, k: int)
    requires
        1 <= k,
        0 <= rem,
        0 <= gap,
    ensures
        respaced(min, gap, rem, k) == respaced(min, gap, rem, k - 1) + gap + (if k - 1 < rem {
            1int
        } else {
            0int
        }),
{
    assert(k * gap == (k - 1) * gap + gap) by (nonlinear_arith);
}

/// Re-spaced labels strictly increase, by at least `gap` per step.
proof fn lemma_respaced_increasing(min: int, gap: int, rem: int, count: int, x: int, y: int)
    requires
        1 <= gap,
        0 <= rem,
        0 <= x < y,
    ensures
        respaced(min, gap, rem, x) + (y - x) * gap <= respaced(min, gap, rem, y),
        respaced(min, gap, rem, x) + gap <= respaced(min, gap, rem, y),
{
    let mx = if x < rem {
        x
    } else {
        rem
    };
    let my = if y < rem {
        y
    } else {
        rem
    };
    assert(mx <= my);
    assert(x * gap + (y - x) * gap == y * gap) by (nonlinear_arith);
    assert((y - x) * gap >= 1 * gap) by (nonlinear_arith)
        requires
            y - x >= 1,
            gap >= 1,
    ;
}

/// How one climb of the conceptual tree moves the window: the parent window
/// contains the child, its size doubles, and it stays inside the label space.
proof fn lemma_window_climb(l: u64, i: u64, j: u64)
    requires
        i < 63,
        j == i + 1,
    ensures
        (l >> i) >> 1u64 == l >> j,
        ((l >> i) >> 1u64) << j == (l >> j) << j,
        (l >> j) << j <= (l >> i) << i,
        ((l >> i) << i) + ((1u64 << i) - 1) <= ((l >> j) << j) + ((1u64 << j) - 1),
        (((l >> j) << j) as int + ((1u64 << j) - 1) as int) < 0x1_0000_0000_0000_0000,
        (1u64 << j) == 2 * (1u64 << i),
        (l >> i) << i <= l,
{
    assert((l >> i) >> 1u64 == l >> j && ((l >> i) >> 1u64) << j == (l >> j) << j && (l >> j) << j <= (l >> i) << i && ((l >> i)
        << i) + ((1u64 << i) - 1) <= ((l >> j) << j) + ((1u64 << j) - 1) && ((l >> j) << j) + ((
    1u64 << j) - 1) < 0x1_0000_0000_0000_0000 && (1u64 << j) == 2 * (1u64 << i) && (l >> i) << i
        <= l) by (bit_vector)
        requires
            i < 63,
            j == i + 1,
    ;
}

} // verus!
