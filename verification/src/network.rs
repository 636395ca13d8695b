//! A loaded network and its accumulators.

use crate::feature::Arch;
use crate::model::{AccumulatorModel, BucketModel, NetworkModel};
use vstd::prelude::*;

mod accumulate;
mod evaluate;
mod load;

verus! {

/// One stack of dense layers.
struct Bucket {
    fc0_bias: Vec<i32>,
    fc0_weight: Vec<i8>,
    fc1_bias: Vec<i32>,
    fc1_weight: Vec<i8>,
    fc2_bias: i32,
    fc2_weight: Vec<i8>,
}

impl View for Bucket {
    type V = BucketModel;

    closed spec fn view(&self) -> BucketModel {
        BucketModel {
            fc0_bias: self.fc0_bias@,
            fc0_weight: self.fc0_weight@,
            fc1_bias: self.fc1_bias@,
            fc1_weight: self.fc1_weight@,
            fc2_bias: self.fc2_bias,
            fc2_weight: self.fc2_weight@,
        }
    }
}

/// The tables and layers that differ between architectures.
enum Layers {
    Sfnnv10 {
        ft_psqt: Vec<i32>,
        threat_weight: Vec<i8>,
        threat_psqt: Vec<i32>,
        buckets: Vec<Bucket>,
    },
    HalfKAv2Hm { ft_psqt: Vec<i32>, buckets: Vec<Bucket> },
    HalfKAv2 { ft_psqt: Vec<i32>, buckets: Vec<Bucket> },
    HalfKP(Bucket),
}

/// The models of a list of stacks.
spec fn bucket_models(buckets: Seq<Bucket>) -> Seq<BucketModel> {
    buckets.map_values(|b: Bucket| b@)
}

impl Layers {
    spec fn arch(self) -> Arch {
        match self {
            Layers::Sfnnv10 { .. } => Arch::Sfnnv10,
            Layers::HalfKAv2Hm { .. } => Arch::HalfKAv2Hm,
            Layers::HalfKAv2 { .. } => Arch::HalfKAv2,
            Layers::HalfKP(_) => Arch::HalfKP,
        }
    }

    spec fn ft_psqt(self) -> Seq<i32> {
        match self {
            Layers::Sfnnv10 { ft_psqt, .. } => ft_psqt@,
            Layers::HalfKAv2Hm { ft_psqt, .. } => ft_psqt@,
            Layers::HalfKAv2 { ft_psqt, .. } => ft_psqt@,
            Layers::HalfKP(_) => Seq::empty(),
        }
    }

    spec fn threat_weight(self) -> Seq<i8> {
        match self {
            Layers::Sfnnv10 { threat_weight, .. } => threat_weight@,
            _ => Seq::empty(),
        }
    }

    spec fn threat_psqt(self) -> Seq<i32> {
        match self {
            Layers::Sfnnv10 { threat_psqt, .. } => threat_psqt@,
            _ => Seq::empty(),
        }
    }

    spec fn buckets(self) -> Seq<BucketModel> {
        match self {
            Layers::Sfnnv10 { buckets, .. } => bucket_models(buckets@),
            Layers::HalfKAv2Hm { buckets, .. } => bucket_models(buckets@),
            Layers::HalfKAv2 { buckets, .. } => bucket_models(buckets@),
            Layers::HalfKP(bucket) => seq![bucket@],
        }
    }
}

/// A loaded NNUE network.
///
/// Load one with [`Network::from_bytes`] or [`Network::from_reader`], then
/// evaluate positions with [`Network::evaluate`], [`Network::evaluate_fen`], or
/// the incremental accumulator API. The architecture is detected automatically
/// from the file header; see [`Network::arch`].
pub struct Network {
    arch: Arch,
    l1: usize,
    ft_bias: Vec<i16>,
    ft_weight: Vec<i16>,
    layers: Layers,
}

impl View for Network {
    type V = NetworkModel;

    closed spec fn view(&self) -> NetworkModel {
        NetworkModel {
            arch: self.arch,
            l1: self.l1 as nat,
            ft_bias: self.ft_bias@,
            ft_weight: self.ft_weight@,
            ft_psqt: self.layers.ft_psqt(),
            threat_weight: self.layers.threat_weight(),
            threat_psqt: self.layers.threat_psqt(),
            buckets: self.layers.buckets(),
        }
    }
}

/// A pair of feature-transformer accumulators (one per perspective) plus the
/// piece count for the position they describe.
///
/// Obtain one with [`Network::accumulator`] or [`Network::empty_accumulator`],
/// keep it alongside your board, and advance it incrementally with
/// [`Network::update`] as moves are made. Evaluate it with
/// [`Network::evaluate_accumulator`].
pub struct Accumulator {
    white: Vec<i16>,
    black: Vec<i16>,
    psqt_white: [i32; 8],
    psqt_black: [i32; 8],
    piece_count: usize,
    threat_pairs: Vec<u32>,
}

impl View for Accumulator {
    type V = AccumulatorModel;

    closed spec fn view(&self) -> AccumulatorModel {
        AccumulatorModel {
            white: self.white@,
            black: self.black@,
            psqt_white: self.psqt_white@,
            psqt_black: self.psqt_black@,
            piece_count: self.piece_count as nat,
            threat_pairs: self.threat_pairs@,
        }
    }
}

impl Clone for Accumulator {
    fn clone(&self) -> (r: Self)
        ensures
            r@ == self@,
    {
        let r = Accumulator {
            white: self.white.clone(),
            black: self.black.clone(),
            psqt_white: self.psqt_white,
            psqt_black: self.psqt_black,
            piece_count: self.piece_count,
            threat_pairs: self.threat_pairs.clone(),
        };
        assert(r.white@ =~= self.white@);
        assert(r.black@ =~= self.black@);
        assert(r.threat_pairs@ =~= self.threat_pairs@);
        r
    }
}

impl Network {
    #[verifier::type_invariant]
    spec fn inv(self) -> bool {
        &&& self@.wf()
        &&& self.layers.arch() == self.arch
    }

    /// The feature-set architecture this network was loaded as.
    pub fn arch(&self) -> (r: Arch)
        ensures
            r == self@.arch,
            self@.wf(),
    {
        proof {
            use_type_invariant(self);
        }
        self.arch
    }

    /// The piece-square weights of the piece features; none where the
    /// architecture has none.
    fn ft_psqt(&self) -> (r: &[i32])
        ensures
            r@ == self@.ft_psqt,
    {
        match &self.layers {
            Layers::Sfnnv10 { ft_psqt, .. } => ft_psqt.as_slice(),
            Layers::HalfKAv2Hm { ft_psqt, .. } => ft_psqt.as_slice(),
            Layers::HalfKAv2 { ft_psqt, .. } => ft_psqt.as_slice(),
            Layers::HalfKP(_) => {
                let none: &[i32] = &[];
                assert(none@ =~= Seq::empty());
                none
            },
        }
    }

    /// The weights of the attack features; none where the architecture has none.
    fn threat_tables(&self) -> (r: (&[i8], &[i32]))
        ensures
            r.0@ == self@.threat_weight,
            r.1@ == self@.threat_psqt,
    {
        match &self.layers {
            Layers::Sfnnv10 { threat_weight, threat_psqt, .. } => (
                threat_weight.as_slice(),
                threat_psqt.as_slice(),
            ),
            _ => {
                let no_weight: &[i8] = &[];
                let no_psqt: &[i32] = &[];
                assert(no_weight@ =~= Seq::empty());
                assert(no_psqt@ =~= Seq::empty());
                (no_weight, no_psqt)
            },
        }
    }
}

} // verus!
