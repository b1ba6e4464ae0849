//! What holds of volumes across writes that make a file longer: what was written
//! reads back.
use vstd::prelude::*;

use super::dir;
use super::file;
use super::file::Chain;
use super::laws;
use super::laws_create;
use super::types;
use super::types::{FileInfo, Geometry};
use crate::bytes;
use crate::fs::block;
use crate::fs::block::Image;

verus! {

/// A chain of `n` clusters; a file without any has no start. The end of a
/// longer one is not marked as bad.
pub open spec fn good_chain(img: Image, g: Geometry, first: u32, n: nat) -> bool {
    if n == 0 {
        first < 2
    } else {
        &&& laws_create::whole_chain(img, g, first, n)
        &&& n > 1 ==> types::fat_value(
            img,
            g,
            types::nth_in(img, g, first, (n - 1) as nat)->0,
        ) != types::BAD_CLUSTER
    }
}

/// A cluster is among the first `n` of a chain.
pub open spec fn in_chain(img: Image, g: Geometry, first: u32, n: nat, x: u32) -> bool {
    exists|m: nat| m < n && #[trigger] types::nth_in(img, g, first, m) == Some(x)
}

/// All bytes behind the tables are kept.
pub open spec fn data_kept(img: Image, img2: Image, g: Geometry) -> bool {
    &&& img2.dom() == img.dom()
    &&& forall|p: int|
        (g.fat_start + g.num_fats * g.fat_size) * 512 <= p < 512 * u64::MAX && img.dom().contains(
            (p / 512) as u64,
        ) ==> #[trigger] block::byte_at(img2, p) == block::byte_at(img, p)
}

/// The clusters that were in use are left alone, but for `last`.
pub open spec fn others_kept(img: Image, img2: Image, g: Geometry, last: u32) -> bool {
    forall|x: u32|
        laws::real_cluster(g, x) && x != last && types::fat_value(img, g, x) != 0
            ==> #[trigger] types::fat_value(img2, g, x) == types::fat_value(img, g, x)
}

proof fn lemma_dom_present(img: Image, img2: Image, g: Geometry)
    requires
        img2.dom() == img.dom(),
        laws::tables_present(img, g),
        laws_create::clusters_present(img, g),
    ensures
        laws::tables_present(img2, g),
        laws_create::clusters_present(img2, g),
{
    assert forall|c: u32| laws::real_cluster(g, c) implies #[trigger] laws::cluster_present(
        img2,
        g,
        c,
    ) by {
        assert(laws::cluster_present(img, g, c));
    }
}

/// Setting an entry of the table keeps the data.
pub proof fn lemma_entry_keeps_all(img: Image, g: Geometry, c: u32, v: u32)
    requires
        laws_create::usual_layout(g),
        laws::tables_present(img, g),
        c < g.fat_size * 128,
    ensures
        data_kept(img, types::with_entry(img, g, c, v), g),
{
    let img2 = types::with_entry(img, g, c, v);
    laws::lemma_with_entry_in(img, g, c, v, c, g.num_fats as nat);
    assert forall|p: int|
        (g.fat_start + g.num_fats * g.fat_size) * 512 <= p < 512 * u64::MAX && img.dom().contains(
            (p / 512) as u64,
        ) implies #[trigger] block::byte_at(img2, p) == block::byte_at(img, p) by {
        laws_create::lemma_entry_keeps_data(img, g, c, v, g.num_fats as nat, p);
    }
}

/// A free cluster is marked as the end of a chain, and linked to the chain if
/// there is one.
pub open spec fn linked(img: Image, g: Geometry, n: nat, last: u32, c: u32) -> Image {
    let marked = types::with_entry(img, g, c, types::EOC_VAL);
    if n == 0 {
        marked
    } else {
        types::with_entry(marked, g, last, c)
    }
}

proof fn lemma_linked_entry(img: Image, g: Geometry, n: nat, last: u32, c: u32, x: u32)
    requires
        laws_create::usual_layout(g),
        laws::tables_present(img, g),
        laws::real_cluster(g, c),
        n > 0 ==> laws::real_cluster(g, last) && last != c,
        x < g.fat_size * 128,
    ensures
        types::fat_value(linked(img, g, n, last, c), g, x) == (if n > 0 && x == last {
            c
        } else if x == c {
            types::EOC_VAL
        } else {
            types::fat_value(img, g, x)
        }),
        linked(img, g, n, last, c).dom() == img.dom(),
{
    let marked = types::with_entry(img, g, c, types::EOC_VAL);
    laws::law_entry_reads_back(img, g, c, types::EOC_VAL, x);
    laws::lemma_with_entry_in(img, g, c, types::EOC_VAL, x, g.num_fats as nat);
    assert(laws::tables_present(marked, g));
    if n > 0 {
        laws::law_entry_reads_back(marked, g, last, c, x);
        laws::lemma_with_entry_in(marked, g, last, c, x, g.num_fats as nat);
    }
}

proof fn lemma_linked_data(img: Image, g: Geometry, n: nat, last: u32, c: u32)
    requires
        laws_create::usual_layout(g),
        laws::tables_present(img, g),
        laws::real_cluster(g, c),
        n > 0 ==> laws::real_cluster(g, last) && last != c,
    ensures
        data_kept(img, linked(img, g, n, last, c), g),
{
    let marked = types::with_entry(img, g, c, types::EOC_VAL);
    lemma_entry_keeps_all(img, g, c, types::EOC_VAL);
    assert(laws::tables_present(marked, g));
    if n > 0 {
        lemma_entry_keeps_all(marked, g, last, c);
        let img2 = types::with_entry(marked, g, last, c);
        assert forall|p: int|
            (g.fat_start + g.num_fats * g.fat_size) * 512 <= p < 512 * u64::MAX
                && img.dom().contains((p / 512) as u64) implies #[trigger] block::byte_at(img2, p)
            == block::byte_at(img, p) by {
            assert(block::byte_at(marked, p) == block::byte_at(img, p));
        }
    }
}

proof fn lemma_linked_nth(img: Image, g: Geometry, first: u32, n: nat, last: u32, c: u32, m: nat)
    requires
        laws_create::usual_layout(g),
        laws::tables_present(img, g),
        n > 0,
        laws_create::whole_chain(img, g, first, n),
        types::nth_in(img, g, first, (n - 1) as nat) == Some(last),
        laws::real_cluster(g, c),
        types::fat_value(img, g, c) == 0,
        m < n,
    ensures
        types::nth_in(linked(img, g, n, last, c), g, first, m) == types::nth_in(img, g, first, m),
        last != c,
    decreases m,
{
    laws_create::lemma_chain_not_free(img, g, first, n, (n - 1) as nat);
    if m > 0 {
        let k = (m - 1) as nat;
        lemma_linked_nth(img, g, first, n, last, c, k);
        assert(types::nth_in(img, g, first, k) is Some);
        let x = types::nth_in(img, g, first, k)->0;
        laws_create::lemma_chain_not_free(img, g, first, n, k);
        assert(x != last) by {
            assert(types::nth_in(img, g, first, k) != types::nth_in(img, g, first, (n - 1) as nat));
        }
        lemma_linked_entry(img, g, n, last, c, x);
    }
}

/// What linking a free cluster does to the chain.
proof fn lemma_linked_chain(img: Image, g: Geometry, first: u32, n: nat, last: u32, c: u32)
    requires
        laws_create::usual_layout(g),
        laws::tables_present(img, g),
        laws_create::clusters_present(img, g),
        good_chain(img, g, first, n),
        n > 0 ==> types::nth_in(img, g, first, (n - 1) as nat) == Some(last),
        laws::real_cluster(g, c),
        types::fat_value(img, g, c) == 0,
    ensures
        ({
            let img2 = linked(img, g, n, last, c);
            let first2 = start_with(n, first, c);
            &&& laws::tables_present(img2, g)
            &&& laws_create::clusters_present(img2, g)
            &&& data_kept(img, img2, g)
            &&& good_chain(img2, g, first2, n + 1)
            &&& types::nth_in(img2, g, first2, n) == Some(c)
            &&& forall|m: nat|
                m < n ==> #[trigger] types::nth_in(img2, g, first2, m) == types::nth_in(
                    img,
                    g,
                    first,
                    m,
                )
            &&& others_kept(img, img2, g, last)
        }),
{
    let img2 = linked(img, g, n, last, c);
    if n > 0 {
        lemma_linked_nth(img, g, first, n, last, c, 0);
        assert(laws::real_cluster(g, last));
    }
    lemma_linked_entry(img, g, n, last, c, c);
    lemma_linked_data(img, g, n, last, c);
    lemma_dom_present(img, img2, g);
    assert forall|x: u32|
        laws::real_cluster(g, x) && x != last && types::fat_value(img, g, x) != 0 implies #[trigger] types::fat_value(
        img2,
        g,
        x,
    ) == types::fat_value(img, g, x) by {
        lemma_linked_entry(img, g, n, last, c, x);
    }
    assert(laws::cluster_present(img2, g, c));
    assert(types::next_in(img2, g, c) is None);
    if n == 0 {
        assert(types::nth_in(img2, g, c, 0) == Some(c));
        assert(types::nth_in(img2, g, c, 1) == types::next_in(img2, g, c));
        assert forall|k: nat| k < 1 implies (#[trigger] types::nth_in(img2, g, c, k) matches Some(x)
            && laws::real_cluster(g, x) && laws::cluster_present(img2, g, x)) by {
        }
    } else {
        assert forall|m: nat| m < n implies #[trigger] types::nth_in(img2, g, first, m)
            == types::nth_in(img, g, first, m) by {
            lemma_linked_nth(img, g, first, n, last, c, m);
        }
        lemma_linked_entry(img, g, n, last, c, last);
        assert(types::nth_in(img2, g, first, (n - 1) as nat) == Some(last));
        assert(types::nth_in(img2, g, first, n) == types::next_in(img2, g, last));
        assert(types::nth_in(img2, g, first, n + 1) == types::next_in(img2, g, c));
        assert forall|k: nat| k < n + 1 implies (#[trigger] types::nth_in(img2, g, first, k) matches Some(
            x,
        ) && laws::real_cluster(g, x) && laws::cluster_present(img2, g, x)) by {
            if k < n {
                assert(types::nth_in(img, g, first, k) is Some);
                assert(laws::cluster_present(img, g, types::nth_in(img, g, first, k)->0));
            }
        }
        assert forall|j: nat, k: nat| j < k < n + 1 implies #[trigger] types::nth_in(
            img2,
            g,
            first,
            j,
        ) != #[trigger] types::nth_in(img2, g, first, k) by {
            assert(types::nth_in(img2, g, first, j) == types::nth_in(img, g, first, j));
            if k < n {
                assert(types::nth_in(img, g, first, j) != types::nth_in(img, g, first, k));
            } else {
                assert(types::nth_in(img, g, first, j) is Some);
                laws_create::lemma_chain_not_free(img, g, first, n, j);
            }
        }
    }
}

/// The chain of a file is that of `s`, and its last cluster is known.
pub open spec fn chain_ok(s: Chain, g: Geometry) -> bool {
    &&& s.have >= 0
    &&& good_chain(s.img, g, s.first, s.have as nat)
    &&& s.have > 0 ==> types::nth_in(s.img, g, s.first, (s.have - 1) as nat) == Some(s.last)
    &&& laws::tables_present(s.img, g)
    &&& laws_create::clusters_present(s.img, g)
}

/// What lengthening a chain keeps: its clusters, the data, and what other
/// chains have.
pub open spec fn lengthens(s: Chain, t: Chain, g: Geometry) -> bool {
    &&& chain_ok(t, g)
    &&& s.have <= t.have
    &&& s.have > 0 ==> t.first == s.first
    &&& data_kept(s.img, t.img, g)
    &&& forall|m: nat|
        m < s.have ==> #[trigger] types::nth_in(t.img, g, t.first, m) == types::nth_in(
            s.img,
            g,
            s.first,
            m,
        )
    &&& forall|x: u32|
        #![trigger in_chain(t.img, g, t.first, t.have as nat, x)]
        laws::real_cluster(g, x) && types::fat_value(s.img, g, x) != 0 && !in_chain(
            s.img,
            g,
            s.first,
            s.have as nat,
            x,
        ) ==> !in_chain(t.img, g, t.first, t.have as nat, x)
    &&& forall|x: u32|
        laws::real_cluster(g, x) && types::fat_value(s.img, g, x) != 0 && !in_chain(
            s.img,
            g,
            s.first,
            s.have as nat,
            x,
        ) ==> #[trigger] types::fat_value(t.img, g, x) == types::fat_value(s.img, g, x)
}

/// The start of a chain that gets the cluster `c` more.
pub open spec fn start_with(n: nat, first: u32, c: u32) -> u32 {
    if n == 0 {
        c
    } else {
        first
    }
}

/// A chain that got the cluster `c` more.
pub open spec fn longer(s: Chain, g: Geometry, c: u32) -> Chain {
    Chain {
        img: linked(s.img, g, s.have as nat, s.last, c),
        first: start_with(s.have as nat, s.first, c),
        last: c,
        have: s.have + 1,
        allocated: s.allocated + 1,
    }
}

proof fn lemma_longer_members(s: Chain, t: Chain, g: Geometry, c: u32, x: u32)
    requires
        laws_create::usual_layout(g),
        chain_ok(s, g),
        laws::real_cluster(g, c),
        types::fat_value(s.img, g, c) == 0,
        t == longer(s, g, c),
        laws::real_cluster(g, x),
        types::fat_value(s.img, g, x) != 0,
        !in_chain(s.img, g, s.first, s.have as nat, x),
    ensures
        !in_chain(t.img, g, t.first, t.have as nat, x),
        types::fat_value(t.img, g, x) == types::fat_value(s.img, g, x),
{
    let n = s.have as nat;
    lemma_linked_chain(s.img, g, s.first, n, s.last, c);
    if in_chain(t.img, g, t.first, t.have as nat, x) {
        let m = choose|m: nat|
            m < t.have as nat && #[trigger] types::nth_in(t.img, g, t.first, m) == Some(x);
        if m < n {
            assert(types::nth_in(s.img, g, s.first, m) == Some(x));
        } else {
            assert(m == n);
        }
    }
    if n > 0 {
        assert(types::nth_in(s.img, g, s.first, (n - 1) as nat) == Some(s.last));
        assert(x != s.last);
        lemma_linked_nth(s.img, g, s.first, n, s.last, c, 0);
    }
    lemma_linked_entry(s.img, g, n, s.last, c, x);
}

proof fn lemma_step_lengthens(s: Chain, t: Chain, g: Geometry, c: u32)
    requires
        laws_create::usual_layout(g),
        chain_ok(s, g),
        laws::real_cluster(g, c),
        types::fat_value(s.img, g, c) == 0,
        t == longer(s, g, c),
    ensures
        lengthens(s, t, g),
{
    let n = s.have as nat;
    lemma_linked_chain(s.img, g, s.first, n, s.last, c);
    assert(chain_ok(t, g));
    assert forall|x: u32|
        laws::real_cluster(g, x) && types::fat_value(s.img, g, x) != 0 && !in_chain(
            s.img,
            g,
            s.first,
            s.have as nat,
            x,
        ) implies !#[trigger] in_chain(t.img, g, t.first, t.have as nat, x) by {
        lemma_longer_members(s, t, g, c, x);
    }
    assert forall|x: u32|
        laws::real_cluster(g, x) && types::fat_value(s.img, g, x) != 0 && !in_chain(
            s.img,
            g,
            s.first,
            s.have as nat,
            x,
        ) implies #[trigger] types::fat_value(t.img, g, x) == types::fat_value(s.img, g, x) by {
        lemma_longer_members(s, t, g, c, x);
    }
}

proof fn lemma_lengthens_trans(a: Chain, b: Chain, c: Chain, g: Geometry)
    requires
        lengthens(a, b, g),
        lengthens(b, c, g),
    ensures
        lengthens(a, c, g),
{
    assert forall|p: int|
        (g.fat_start + g.num_fats * g.fat_size) * 512 <= p < 512 * u64::MAX
            && a.img.dom().contains((p / 512) as u64) implies #[trigger] block::byte_at(c.img, p)
        == block::byte_at(a.img, p) by {
        assert(block::byte_at(b.img, p) == block::byte_at(a.img, p));
    }
    assert forall|m: nat| m < a.have implies #[trigger] types::nth_in(c.img, g, c.first, m)
        == types::nth_in(a.img, g, a.first, m) by {
        assert(types::nth_in(b.img, g, b.first, m) == types::nth_in(a.img, g, a.first, m));
    }
    assert forall|x: u32|
        laws::real_cluster(g, x) && types::fat_value(a.img, g, x) != 0 && !in_chain(
            a.img,
            g,
            a.first,
            a.have as nat,
            x,
        ) implies !#[trigger] in_chain(c.img, g, c.first, c.have as nat, x) by {
        assert(types::fat_value(b.img, g, x) == types::fat_value(a.img, g, x));
        assert(!in_chain(b.img, g, b.first, b.have as nat, x));
    }
    assert forall|x: u32|
        laws::real_cluster(g, x) && types::fat_value(a.img, g, x) != 0 && !in_chain(
            a.img,
            g,
            a.first,
            a.have as nat,
            x,
        ) implies #[trigger] types::fat_value(c.img, g, x) == types::fat_value(a.img, g, x) by {
        assert(types::fat_value(b.img, g, x) == types::fat_value(a.img, g, x));
        assert(!in_chain(b.img, g, b.first, b.have as nat, x));
    }
}

proof fn lemma_extended(s: Chain, g: Geometry, need: int)
    requires
        laws_create::usual_layout(g),
        chain_ok(s, g),
    ensures
        lengthens(s, file::extended(s, g, need), g),
        s.have <= need ==> file::extended(s, g, need).have <= need,
    decreases need - s.have,
{
    if s.have < need {
        laws::law_allocation_picks_lowest(s.img, g, 2);
        match types::first_free(s.img, g, 2) {
            Some(c) => {
                assert(laws::real_cluster(g, c));
                let t = longer(s, g, c);
                lemma_step_lengthens(s, t, g, c);
                lemma_extended(t, g, need);
                lemma_lengthens_trans(s, t, file::extended(t, g, need), g);
            },
            None => {},
        }
    }
}

/// The length of a chain as it is counted.
proof fn lemma_tail(img: Image, g: Geometry, first: u32, n: nat, i: nat)
    requires
        good_chain(img, g, first, n),
        i < n,
        n <= g.fat_size * 128,
    ensures
        types::tail_from(img, g, types::nth_in(img, g, first, i)->0, i as int + 1) == Some(
            (n as int, types::nth_in(img, g, first, (n - 1) as nat)->0),
        ),
    decreases n - i,
{
    assert(types::nth_in(img, g, first, i) is Some);
    let c = types::nth_in(img, g, first, i)->0;
    assert(types::nth_in(img, g, first, i + 1) == types::next_in(img, g, c));
    if i + 1 < n {
        assert(types::nth_in(img, g, first, i + 1) is Some);
        lemma_tail(img, g, first, n, i + 1);
    }
}

// ── What leaves the table alone ──

/// Every entry of the table is kept.
pub open spec fn table_kept(img: Image, img2: Image, g: Geometry) -> bool {
    &&& img2.dom() == img.dom()
    &&& forall|x: u32|
        laws::real_cluster(g, x) ==> #[trigger] types::fat_value(img2, g, x) == types::fat_value(
            img,
            g,
            x,
        )
}

/// Where the table is kept, chains are.
pub proof fn lemma_table_nth(img: Image, img2: Image, g: Geometry, first: u32, n: nat, k: nat)
    requires
        table_kept(img, img2, g),
        laws::sound_chain(img, g, first, n),
        k < n,
    ensures
        types::nth_in(img2, g, first, k) == types::nth_in(img, g, first, k),
    decreases k,
{
    if k > 0 {
        let j = (k - 1) as nat;
        lemma_table_nth(img, img2, g, first, n, j);
        assert(types::nth_in(img, g, first, j) is Some);
        let x = types::nth_in(img, g, first, j)->0;
        assert(laws::real_cluster(g, x));
        assert(types::fat_value(img2, g, x) == types::fat_value(img, g, x));
    }
}

/// Pouring data into a chain keeps the table.
pub proof fn lemma_pour_keeps_table(
    img: Image,
    g: Geometry,
    first: u32,
    n: nat,
    i: nat,
    rel: int,
    d: Seq<u8>,
)
    requires
        laws::sound_layout(g),
        laws::tables_present(img, g),
        laws::sound_chain(img, g, first, n),
        i < n,
        0 <= rel < types::cluster_size(g),
        i * types::cluster_size(g) + rel + d.len() <= n * types::cluster_size(g),
    ensures
        table_kept(img, file::poured(img, g, types::nth_in(img, g, first, i)->0, rel, d).0, g),
    decreases d.len(),
{
    let cs = types::cluster_size(g);
    assert(types::nth_in(img, g, first, i) is Some);
    let c = types::nth_in(img, g, first, i)->0;
    if d.len() > 0 {
        let k = file::min(cs - rel, d.len() as int);
        let part = d.take(k);
        let img1 = block::patched(img, types::cluster_pos(g, c) + rel, part);
        laws::lemma_patch_keeps_chain(img, g, c, rel, part, first, n);
        laws::lemma_patch_dom(img, types::cluster_pos(g, c) + rel, part);
        assert forall|x: u32| laws::real_cluster(g, x) implies #[trigger] types::fat_value(
            img1,
            g,
            x,
        ) == types::fat_value(img, g, x) by {
            laws::lemma_patch_keeps_entries(img, g, c, rel, part, x);
        }
        if k < d.len() {
            assert(i + 1 < n) by {
                assert((i + 1) * cs < n * cs) by (nonlinear_arith)
                    requires
                        i * cs + rel + d.len() <= n * cs,
                        cs - rel < d.len(),
                ;
                assert(i + 1 < n) by (nonlinear_arith)
                    requires
                        (i + 1) * cs < n * cs,
                        cs > 0,
                ;
            }
            assert(types::nth_in(img1, g, first, i + 1) == types::nth_in(img, g, first, i + 1));
            assert(types::nth_in(img, g, first, i + 1) is Some);
            assert(types::nth_in(img1, g, first, i) == Some(c));
            let c1 = types::nth_in(img1, g, first, i + 1)->0;
            assert(types::next_in(img1, g, c) == Some(c1));
            assert((i + 1) * cs == i * cs + cs) by (nonlinear_arith);
            let rest = d.skip(k);
            lemma_pour_keeps_table(img1, g, first, n, i + 1, 0, rest);
            let img2 = file::poured(img1, g, c1, 0, rest).0;
            assert(file::poured(img, g, c, rel, d).0 == img2);
            assert forall|x: u32| laws::real_cluster(g, x) implies #[trigger] types::fat_value(
                img2,
                g,
                x,
            ) == types::fat_value(img, g, x) by {
                assert(types::fat_value(img1, g, x) == types::fat_value(img, g, x));
            }
        }
    }
}

/// The bytes of a file are what they were where the table is kept and the bytes
/// of its clusters are.
pub proof fn lemma_file_byte_kept(img: Image, img2: Image, g: Geometry, first: u32, n: nat, p: int)
    requires
        laws::sound_layout(g),
        laws::sound_chain(img, g, first, n),
        table_kept(img, img2, g),
        0 <= p < n * types::cluster_size(g),
        ({
            let q = file::file_pos(img, g, first, p);
            block::byte_at(img2, q) == block::byte_at(img, q)
        }),
    ensures
        file::file_byte(img2, g, first, p) == file::file_byte(img, g, first, p),
{
    laws::lemma_file_byte_present(img, g, first, n, p);
    lemma_table_nth(img, img2, g, first, n, (p / types::cluster_size(g)) as nat);
}

// ── The directory entry ──

/// A directory entry whose start and size were set says them.
pub proof fn lemma_entry_says(img: Image, g: Geometry, pos: int, first: u32, size: u32, off: int)
    requires
        0 <= pos,
        pos + 32 <= 512 * u64::MAX,
        forall|q: int| pos + 20 <= q < pos + 32 ==> #[trigger] img.dom().contains((q / 512) as u64),
    ensures
        ({
            let img2 = block::patched(
                img,
                pos + 20,
                file::entry_fields(first, block::bytes_at(img, pos + 22, 4), size),
            );
            let e = dir::entry_of(block::bytes_at(img2, pos, 32), off);
            e.first_cluster == first && e.size == size
        }),
{
    let kept = block::bytes_at(img, pos + 22, 4);
    let hi = (first / 65536) as nat;
    let lo = (first % 65536) as nat;
    let d = file::entry_fields(first, kept, size);
    bytes::lemma_le_bytes_len(hi, 2);
    bytes::lemma_le_bytes_len(lo, 2);
    bytes::lemma_le_bytes_len(size as nat, 4);
    assert(d.len() == 12);
    let img2 = block::patched(img, pos + 20, d);
    let s = block::bytes_at(img2, pos, 32);
    assert forall|i: int| 20 <= i < 32 implies #[trigger] s[i] == d[i - 20] by {
        assert(img.dom().contains(((pos + i) / 512) as u64));
        laws::lemma_byte_put(img, pos + 20, d, pos + i);
    }
    assert(s.subrange(20, 22) =~= bytes::le_bytes(hi, 2));
    assert(s.subrange(26, 28) =~= bytes::le_bytes(lo, 2));
    assert(s.subrange(28, 32) =~= bytes::le_bytes(size as nat, 4));
    reveal_with_fuel(vstd::arithmetic::power::pow, 5);
    assert(vstd::arithmetic::power::pow(256, 2) == 65536);
    assert(vstd::arithmetic::power::pow(256, 4) == 0x1_0000_0000);
    bytes::lemma_le_round_trip(s, 20, hi, 2);
    bytes::lemma_le_round_trip(s, 26, lo, 2);
    bytes::lemma_le_round_trip(s, 28, size as nat, 4);
    assert(hi * 65536 + lo == first);
}

// ── The law ──

/// The directory of a file: a chain of its own, with the file's entry in it.
pub open spec fn apart_from_directory(img: Image, g: Geometry, info: FileInfo, n: nat, nd: nat) -> bool {
    &&& laws_create::whole_chain(img, g, info.dir_cluster, nd)
    &&& info.dir_cluster >= 2
    &&& info.entry_off as int / types::cluster_size(g) < nd
    &&& info.entry_off % 32 == 0
    &&& forall|j: nat|
        j < nd ==> !in_chain(
            img,
            g,
            info.first_cluster,
            n,
            (#[trigger] types::nth_in(img, g, info.dir_cluster, j))->0,
        )
}

/// A chain of `n` clusters, before anything is linked to it.
pub open spec fn chain_of(img: Image, g: Geometry, first: u32, n: nat) -> Chain {
    Chain {
        img,
        first,
        last: if n == 0 {
            0
        } else {
            types::nth_in(img, g, first, (n - 1) as nat)->0
        },
        have: n as int,
        allocated: 0,
    }
}

/// The chain of a file once it is long enough for a write, or as long as it
/// can be made.
pub open spec fn chain_for(img: Image, g: Geometry, info: FileInfo, n: nat, end: int) -> Chain {
    let cs = types::cluster_size(g);
    file::extended(chain_of(img, g, info.first_cluster, n), g, (end + cs - 1) / cs)
}

/// The directory entry of a file names this start cluster and this size.
pub open spec fn entry_names(
    img: Image,
    g: Geometry,
    info: FileInfo,
    pos: Option<int>,
    first: u32,
    size: int,
) -> bool {
    &&& pos is Some
    &&& ({
        let e = dir::entry_of(block::bytes_at(img, pos->0, 32), info.entry_off as int);
        e.first_cluster == first && e.size == size
    })
}

/// Byte `p` of a file after a write that made it longer: the data, zeros
/// between the old end and the data, and what was there before.
pub open spec fn grown_byte(
    img: Image,
    g: Geometry,
    info: FileInfo,
    offset: int,
    data: Seq<u8>,
    p: int,
) -> u8 {
    if p >= offset {
        data[p - offset]
    } else if p >= info.size {
        0
    } else {
        file::file_byte(img, g, info.first_cluster, p)
    }
}

/// The data part of a write into a chain that is long enough: the gap is zeroed
/// and the data written.
pub proof fn lemma_filled_in(
    t: Chain,
    g: Geometry,
    info: FileInfo,
    offset: int,
    data: Seq<u8>,
    end: int,
)
    requires
        laws_create::usual_layout(g),
        chain_ok(t, g),
        t.have > 0,
        0 <= offset < end <= t.have * types::cluster_size(g),
        end <= offset + data.len(),
        end <= u32::MAX,
        0 <= info.size,
    ensures
        ({
            let old_end = file::min(info.size as int, end);
            let (zi, zok) = file::zeroed(t.img, g, t.first, old_end, end);
            let (wi, m) = file::overwritten(
                zi,
                g,
                file::resized(info, t.first, end as u32),
                offset,
                data.take(file::min(end - offset, data.len() as int)),
            );
            &&& zok
            &&& m == end - offset
            &&& table_kept(t.img, wi, g)
            &&& laws::tables_present(wi, g)
            &&& laws::sound_chain(wi, g, t.first, t.have as nat)
            &&& forall|p: int|
                0 <= p < end ==> #[trigger] file::file_byte(wi, g, t.first, p) == (if p >= offset {
                    data[p - offset]
                } else if p >= old_end {
                    0
                } else {
                    file::file_byte(t.img, g, t.first, p)
                })
        }),
{
    let cs = types::cluster_size(g);
    let n = t.have as nat;
    let old_end = file::min(info.size as int, end);
    let (zi, zok) = file::zeroed(t.img, g, t.first, old_end, end);
    assert(t.first >= 2) by {
        assert(types::nth_in(t.img, g, t.first, 0) is Some);
        assert(types::nth_in(t.img, g, t.first, 0) == Some(t.first));
    }
    let zeros = bytes::filled(0, (end - old_end) as nat);
    if old_end < end {
        let i = (old_end / cs) as nat;
        let rel = old_end % cs;
        vstd::arithmetic::div_mod::lemma_fundamental_div_mod(old_end, cs);
        laws::lemma_file_byte_present(t.img, g, t.first, n, old_end);
        assert(cs * i == i * cs) by (nonlinear_arith);
        laws::lemma_pour_bytes(t.img, g, t.first, n, i, rel, zeros);
        lemma_pour_keeps_table(t.img, g, t.first, n, i, rel, zeros);
    }
    assert(zok);
    assert(table_kept(t.img, zi, g));
    assert(laws::tables_present(zi, g));
    assert(laws::sound_chain(zi, g, t.first, n));
    assert forall|p: int| 0 <= p < end implies #[trigger] file::file_byte(zi, g, t.first, p) == (if p
        >= old_end {
        0
    } else {
        file::file_byte(t.img, g, t.first, p)
    }) by {
    }
    let ri = file::resized(info, t.first, end as u32);
    let d = data.take(file::min(end - offset, data.len() as int));
    assert(d.len() == end - offset);
    laws::law_write_reads_back(zi, g, ri, n, offset, d);
    let (wi, m) = file::overwritten(zi, g, ri, offset, d);
    // The same pour, seen from the table.
    let i = (offset / cs) as nat;
    let rel = offset % cs;
    vstd::arithmetic::div_mod::lemma_fundamental_div_mod(offset, cs);
    laws::lemma_file_byte_present(zi, g, t.first, n, offset);
    assert(cs * i == i * cs) by (nonlinear_arith);
    let e = d.take(file::min(d.len() as int, ri.size - offset));
    lemma_pour_keeps_table(zi, g, t.first, n, i, rel, e);
    assert forall|x: u32| laws::real_cluster(g, x) implies #[trigger] types::fat_value(wi, g, x)
        == types::fat_value(t.img, g, x) by {
        assert(types::fat_value(zi, g, x) == types::fat_value(t.img, g, x));
    }
    assert forall|p: int| 0 <= p < end implies #[trigger] file::file_byte(wi, g, t.first, p) == (if p
        >= offset {
        data[p - offset]
    } else if p >= old_end {
        0
    } else {
        file::file_byte(t.img, g, t.first, p)
    }) by {
        assert(file::file_byte(zi, g, t.first, p) == (if p >= old_end {
            0
        } else {
            file::file_byte(t.img, g, t.first, p)
        }));
    }
}

/// A chain that shares no cluster with the one that is lengthened stays.
pub proof fn lemma_other_chain(s: Chain, t: Chain, g: Geometry, d: u32, nd: nat, k: nat)
    requires
        lengthens(s, t, g),
        laws_create::whole_chain(s.img, g, d, nd),
        forall|j: nat|
            j < nd ==> !in_chain(
                s.img,
                g,
                s.first,
                s.have as nat,
                (#[trigger] types::nth_in(s.img, g, d, j))->0,
            ),
        k < nd,
    ensures
        types::nth_in(t.img, g, d, k) == types::nth_in(s.img, g, d, k),
    decreases k,
{
    if k > 0 {
        let j = (k - 1) as nat;
        lemma_other_chain(s, t, g, d, nd, j);
        assert(types::nth_in(s.img, g, d, j) is Some);
        laws_create::lemma_chain_not_free(s.img, g, d, nd, j);
        let x = types::nth_in(s.img, g, d, j)->0;
        assert(laws::real_cluster(g, x));
        assert(types::fat_value(t.img, g, x) == types::fat_value(s.img, g, x));
    }
}

/// A patch within a cluster that is not of a file keeps the file's bytes.
pub proof fn lemma_patch_elsewhere(
    img: Image,
    g: Geometry,
    first: u32,
    n: nat,
    cd: u32,
    rel: int,
    d: Seq<u8>,
    p: int,
)
    requires
        laws::sound_layout(g),
        laws::tables_present(img, g),
        laws::sound_chain(img, g, first, n),
        laws::real_cluster(g, cd),
        !in_chain(img, g, first, n, cd),
        0 <= rel,
        rel + d.len() <= types::cluster_size(g),
        0 <= p < n * types::cluster_size(g),
    ensures
        table_kept(img, block::patched(img, types::cluster_pos(g, cd) + rel, d), g),
        file::file_byte(block::patched(img, types::cluster_pos(g, cd) + rel, d), g, first, p)
            == file::file_byte(img, g, first, p),
{
    let a = types::cluster_pos(g, cd) + rel;
    let img2 = block::patched(img, a, d);
    laws::lemma_patch_dom(img, a, d);
    assert forall|x: u32| laws::real_cluster(g, x) implies #[trigger] types::fat_value(img2, g, x)
        == types::fat_value(img, g, x) by {
        laws::lemma_patch_keeps_entries(img, g, cd, rel, d, x);
    }
    laws::lemma_file_byte_present(img, g, first, n, p);
    let k = (p / types::cluster_size(g)) as nat;
    let c = types::nth_in(img, g, first, k)->0;
    assert(types::nth_in(img, g, first, k) == Some(c));
    assert(c != cd);
    laws::lemma_clusters_apart(g, c, cd);
    laws::lemma_byte_kept(img, a, d, file::file_pos(img, g, first, p));
    lemma_file_byte_kept(img, img2, g, first, n, p);
}

/// Setting the count of free clusters keeps a file's bytes.
pub proof fn lemma_count_elsewhere(
    img: Image,
    g: Geometry,
    first: u32,
    n: nat,
    delta: int,
    next: u32,
    p: int,
)
    requires
        laws_create::usual_layout(g),
        laws::tables_present(img, g),
        laws::sound_chain(img, g, first, n),
        0 <= p < n * types::cluster_size(g),
    ensures
        file::file_byte(types::with_fsinfo(img, delta, next), g, first, p) == file::file_byte(
            img,
            g,
            first,
            p,
        ),
{
    let img2 = types::with_fsinfo(img, delta, next);
    laws_create::lemma_count_keeps_entries(img, g, delta, next, 0);
    assert forall|x: u32| laws::real_cluster(g, x) implies #[trigger] types::fat_value(img2, g, x)
        == types::fat_value(img, g, x) by {
        laws_create::lemma_count_keeps_entries(img, g, delta, next, x);
    }
    laws::lemma_file_byte_present(img, g, first, n, p);
    let c = types::nth_in(img, g, first, (p / types::cluster_size(g)) as nat)->0;
    laws::lemma_cluster_behind(g, c);
    assert(0 <= g.num_fats * g.fat_size) by (nonlinear_arith)
        requires
            0 <= g.num_fats,
            0 <= g.fat_size,
    ;
    laws_create::lemma_count_keeps(img, g, delta, next, file::file_pos(img, g, first, p));
    lemma_file_byte_kept(img, img2, g, first, n, p);
}

/// Where the entry of a file is, within a cluster of its directory.
pub proof fn lemma_entry_place(g: Geometry, off: u64)
    requires
        types::sound_geometry(g),
        off % 32 == 0,
    ensures
        0 <= off as int % types::cluster_size(g),
        off as int % types::cluster_size(g) + 32 <= types::cluster_size(g),
{
    let cs = types::cluster_size(g);
    let o = off as int;
    vstd::arithmetic::div_mod::lemma_fundamental_div_mod(o, cs);
    let z = g.spc * (o / cs);
    assert(cs * (o / cs) == 512 * z) by (nonlinear_arith)
        requires
            cs == g.spc * 512,
            z == g.spc * (o / cs),
    ;
    // In units of 32 bytes.
    let k = o / 32 - 16 * z;
    assert(o == 32 * (o / 32));
    assert(o % cs == 32 * k);
    assert(cs == 32 * (16 * g.spc));
    assert(k < 16 * g.spc);
}

/// The chain that a write finds and the chain that it makes of it.
pub proof fn lemma_chain_for(img: Image, g: Geometry, info: FileInfo, n: nat, end: int)
    requires
        laws_create::usual_layout(g),
        laws::tables_present(img, g),
        laws_create::clusters_present(img, g),
        good_chain(img, g, info.first_cluster, n),
        n <= g.fat_size * 128,
    ensures
        ({
            let s = chain_of(img, g, info.first_cluster, n);
            &&& types::tail_of(img, g, info.first_cluster) == Some((n as int, s.last))
            &&& chain_ok(s, g)
            &&& lengthens(s, chain_for(img, g, info, n, end), g)
        }),
{
    let cs = types::cluster_size(g);
    let first = info.first_cluster;
    let s = chain_of(img, g, first, n);
    if n > 0 {
        assert(types::nth_in(img, g, first, (n - 1) as nat) is Some);
        assert(types::nth_in(img, g, first, 0) is Some);
        assert(types::nth_in(img, g, first, 0) == Some(first));
        lemma_tail(img, g, first, n, 0);
    }
    lemma_extended(s, g, (end + cs - 1) / cs);
}

/// What is written into a file reads back also where the file gets longer. On a
/// sound volume, where the file and its directory share no cluster, all is
/// written that finds room; those bytes of the file are the data, the bytes
/// between its old end and the data are zero, and the bytes before are kept.
/// The directory entry then names the start of the chain and the new size.
pub proof fn law_grown_reads_back(
    img: Image,
    g: Geometry,
    info: FileInfo,
    n: nat,
    nd: nat,
    offset: int,
    data: Seq<u8>,
)
    requires
        laws_create::usual_layout(g),
        laws::tables_present(img, g),
        laws_create::clusters_present(img, g),
        good_chain(img, g, info.first_cluster, n),
        n <= g.fat_size * 128,
        info.size <= n * types::cluster_size(g),
        apart_from_directory(img, g, info, n, nd),
        !info.is_dir,
        data.len() > 0,
        0 <= offset,
        info.size < offset + data.len() <= u32::MAX,
    ensures
        ({
            let (img2, m) = file::grown(img, g, info, offset, data);
            let t = chain_for(img, g, info, n, offset + data.len());
            let end = file::min(offset + data.len(), t.have * types::cluster_size(g));
            &&& m == (if end <= offset {
                0
            } else {
                end - offset
            })
            &&& end > offset ==> forall|p: int|
                0 <= p < end ==> #[trigger] file::file_byte(img2, g, t.first, p) == grown_byte(
                    img,
                    g,
                    info,
                    offset,
                    data,
                    p,
                )
            &&& end > offset ==> entry_names(
                img2,
                g,
                info,
                file::entry_pos(img, g, info.dir_cluster, info.entry_off as int),
                t.first,
                end,
            )
        }),
{
    let cs = types::cluster_size(g);
    let s = chain_of(img, g, info.first_cluster, n);
    let t = chain_for(img, g, info, n, offset + data.len());
    lemma_chain_for(img, g, info, n, offset + data.len());
    let end = file::min(offset + data.len(), t.have * cs);
    let (img2, m) = file::grown(img, g, info, offset, data);
    assert((img2, m) == file::grown_into(t, g, info, offset, data));
    if end > offset {
        assert(t.have > 0) by {
            if t.have == 0 {
                assert(t.have * cs == 0) by (nonlinear_arith)
                    requires
                        t.have == 0,
                ;
            }
        }
        lemma_filled_in(t, g, info, offset, data, end);
        lemma_grown_rest(s, t, g, info, n, nd, offset, data, end);
    }
}

/// The rest of the write: the directory entry and the count of free clusters.
proof fn lemma_grown_rest(
    s: Chain,
    t: Chain,
    g: Geometry,
    info: FileInfo,
    n: nat,
    nd: nat,
    offset: int,
    data: Seq<u8>,
    end: int,
)
    requires
        laws_create::usual_layout(g),
        lengthens(s, t, g),
        chain_ok(s, g),
        s.have == n,
        s.first == info.first_cluster,
        t.have > 0,
        info.size <= n * types::cluster_size(g),
        apart_from_directory(s.img, g, info, n, nd),
        end == file::min(offset + data.len(), t.have * types::cluster_size(g)),
        0 <= offset < end <= u32::MAX,
    ensures
        ({
            let (img2, m) = file::grown_into(t, g, info, offset, data);
            &&& m == end - offset
            &&& forall|p: int|
                0 <= p < end ==> #[trigger] file::file_byte(img2, g, t.first, p) == grown_byte(
                    s.img,
                    g,
                    info,
                    offset,
                    data,
                    p,
                )
            &&& entry_names(
                img2,
                g,
                info,
                file::entry_pos(s.img, g, info.dir_cluster, info.entry_off as int),
                t.first,
                end,
            )
        }),
{
    let cs = types::cluster_size(g);
    let old_end = file::min(info.size as int, end);
    lemma_filled_in(t, g, info, offset, data, end);
    let (zi, zok) = file::zeroed(t.img, g, t.first, old_end, end);
    let (wi, m) = file::overwritten(
        zi,
        g,
        file::resized(info, t.first, end as u32),
        offset,
        data.take(file::min(end - offset, data.len() as int)),
    );
    let tn = t.have as nat;
    // The entry of the file, in a cluster that is not the file's.
    let kd = (info.entry_off as int / cs) as nat;
    let rel = info.entry_off as int % cs;
    vstd::arithmetic::div_mod::lemma_div_pos_is_pos(info.entry_off as int, cs);
    lemma_entry_place(g, info.entry_off);
    assert(types::nth_in(s.img, g, info.dir_cluster, kd) is Some);
    let cd = types::nth_in(s.img, g, info.dir_cluster, kd)->0;
    laws_create::lemma_chain_not_free(s.img, g, info.dir_cluster, nd, kd);
    assert forall|j: nat| j < nd implies #[trigger] types::nth_in(t.img, g, info.dir_cluster, j)
        == types::nth_in(s.img, g, info.dir_cluster, j) by {
        lemma_other_chain(s, t, g, info.dir_cluster, nd, j);
    }
    assert(!in_chain(t.img, g, t.first, tn, cd));
    assert(laws::sound_chain(t.img, g, info.dir_cluster, nd)) by {
        assert forall|k: nat| k < nd implies (#[trigger] types::nth_in(
            t.img,
            g,
            info.dir_cluster,
            k,
        ) matches Some(c) && laws::real_cluster(g, c) && laws::cluster_present(t.img, g, c)) by {
            assert(types::nth_in(s.img, g, info.dir_cluster, k) is Some);
            let c = types::nth_in(s.img, g, info.dir_cluster, k)->0;
            assert(laws::cluster_present(s.img, g, c));
        }
        assert forall|j: nat, k: nat| j < k < nd implies #[trigger] types::nth_in(
            t.img,
            g,
            info.dir_cluster,
            j,
        ) != #[trigger] types::nth_in(t.img, g, info.dir_cluster, k) by {
            assert(types::nth_in(s.img, g, info.dir_cluster, j) != types::nth_in(
                s.img,
                g,
                info.dir_cluster,
                k,
            ));
        }
    }
    lemma_table_nth(t.img, wi, g, info.dir_cluster, nd, kd);
    assert(types::nth_in(wi, g, info.dir_cluster, kd) == Some(cd));
    assert(!in_chain(wi, g, t.first, tn, cd)) by {
        if in_chain(wi, g, t.first, tn, cd) {
            let k = choose|k: nat| k < tn && #[trigger] types::nth_in(wi, g, t.first, k) == Some(cd);
            lemma_table_nth(t.img, wi, g, t.first, tn, k);
            assert(types::nth_in(t.img, g, t.first, k) == Some(cd));
        }
    }
    let pos = types::cluster_pos(g, cd) + rel;
    let fields = file::entry_fields(t.first, block::bytes_at(wi, pos + 22, 4), end as u32);
    bytes::lemma_le_bytes_len((t.first / 65536) as nat, 2);
    bytes::lemma_le_bytes_len((t.first % 65536) as nat, 2);
    bytes::lemma_le_bytes_len(end as u32 as nat, 4);
    assert(fields.len() == 12);
    let pi = block::patched(wi, pos + 20, fields);
    assert(pos + 20 == types::cluster_pos(g, cd) + (rel + 20));
    let size = if offset + m > old_end {
        offset + m
    } else {
        old_end
    };
    assert(size == end);
    assert(file::entry_patched(wi, g, info.dir_cluster, info.entry_off as int, t.first, end as u32)
        == (pi, true));
    lemma_patch_elsewhere(wi, g, t.first, tn, cd, rel + 20, fields, 0);
    let img2 = types::with_fsinfo(pi, -t.allocated, file::after(t.last));
    assert(file::grown_into(t, g, info, offset, data) == (img2, m));
    assert(laws::tables_present(pi, g));
    laws::lemma_patch_keeps_chain(wi, g, cd, rel + 20, fields, t.first, tn);
    assert forall|p: int| 0 <= p < end implies #[trigger] file::file_byte(img2, g, t.first, p)
        == grown_byte(s.img, g, info, offset, data, p) by {
        lemma_patch_elsewhere(wi, g, t.first, tn, cd, rel + 20, fields, p);
        lemma_count_elsewhere(pi, g, t.first, tn, -t.allocated, file::after(t.last), p);
        if p < offset && p < info.size {
            lemma_kept_byte(s, t, g, p);
        }
    }
    // The bytes of the entry are there.
    laws::lemma_cluster_behind(g, cd);
    assert(0 <= g.num_fats * g.fat_size) by (nonlinear_arith)
        requires
            0 <= g.num_fats,
            0 <= g.fat_size,
    ;
    assert(laws::cluster_present(s.img, g, cd));
    assert(laws::cluster_present(wi, g, cd));
    assert forall|q: int| pos <= q < pos + 32 implies #[trigger] wi.dom().contains(
        (q / 512) as u64,
    ) by {
    }
    lemma_entry_says(wi, g, pos, t.first, end as u32, info.entry_off as int);
    laws::lemma_patch_dom(wi, pos + 20, fields);
    assert(block::bytes_at(img2, pos, 32) =~= block::bytes_at(pi, pos, 32)) by {
        assert forall|i: int| 0 <= i < 32 implies block::bytes_at(img2, pos, 32)[i]
            == block::bytes_at(pi, pos, 32)[i] by {
            assert(wi.dom().contains(((pos + i) / 512) as u64));
            laws_create::lemma_count_keeps(pi, g, -t.allocated, file::after(t.last), pos + i);
        }
    }
}

/// A byte of the old file is the same in the lengthened chain.
proof fn lemma_kept_byte(s: Chain, t: Chain, g: Geometry, p: int)
    requires
        laws_create::usual_layout(g),
        chain_ok(s, g),
        lengthens(s, t, g),
        0 <= p < s.have * types::cluster_size(g),
    ensures
        file::file_byte(t.img, g, t.first, p) == file::file_byte(s.img, g, s.first, p),
{
    let cs = types::cluster_size(g);
    assert(s.have > 0) by {
        if s.have <= 0 {
            assert(s.have * cs <= 0) by (nonlinear_arith)
                requires
                    s.have <= 0,
                    cs > 0,
            ;
        }
    }
    laws::lemma_file_byte_present(s.img, g, s.first, s.have as nat, p);
    let k = (p / cs) as nat;
    let c = types::nth_in(s.img, g, s.first, k)->0;
    assert(types::nth_in(t.img, g, t.first, k) == types::nth_in(s.img, g, s.first, k));
    laws::lemma_cluster_behind(g, c);
    let q = file::file_pos(s.img, g, s.first, p);
    assert(block::byte_at(t.img, q) == block::byte_at(s.img, q));
}

} // verus!
