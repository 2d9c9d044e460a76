//! What a model will cost, computed from its shape when nothing has measured it.
//!
//! Admitting on weights alone is admitting on an under-estimate, and an
//! under-estimate is the failure that wedges the machine. This module is the
//! rung between a measurement and a declared figure.
use vstd::prelude::*;

use crate::estimate::estimator::{Basis, Estimate};
use crate::estimate::shape::ModelShape;
use crate::seqs::{capped, lemma_capped_product, saturating_product};

verus! {

/// Bytes per cache element. f16, the expensive case: what every one of these
/// providers uses unless told otherwise.
pub const KV_DTYPE_BYTES: u64 = 2;

/// Activations, compute buffers, the allocator's own slack: everything that
/// is neither weights nor cache. A margin, not a measurement.
pub const MARGIN_NUM: u64 = 108;

pub const MARGIN_DEN: u64 = 100;

/// The size of a KV cache: K and V, per layer, per kv head, per head
/// dimension, per token, at the cache's own width.
pub open spec fn cache_size(shape: ModelShape, window: nat, dtype_bytes: nat) -> nat {
    2 * (shape.n_layers as nat) * (shape.n_kv_heads as nat) * (shape.head_dim as nat) * window
        * dtype_bytes
}

/// The KV cache at a given window.
///
/// Saturating: a caller may ask for any window, and a wrapped product would be
/// a small, confident, catastrophic number.
pub fn kv_bytes(shape: &ModelShape, context_tokens: u32, kv_dtype_bytes: u64) -> (r: u64)
    ensures
        r == capped(cache_size(*shape, context_tokens as nat, kv_dtype_bytes as nat)),
{
    let a = saturating_product(2, shape.n_layers as u64);
    let b = saturating_product(a, shape.n_kv_heads as u64);
    let c = saturating_product(b, shape.head_dim as u64);
    let d = saturating_product(c, context_tokens as u64);
    proof {
        let l = shape.n_layers as nat;
        let h = shape.n_kv_heads as nat;
        let m = shape.head_dim as nat;
        lemma_capped_product(2 * l, h);
        lemma_capped_product(2 * l * h, m);
        lemma_capped_product(2 * l * h * m, context_tokens as nat);
        lemma_capped_product(2 * l * h * m * (context_tokens as nat), kv_dtype_bytes as nat);
    }
    saturating_product(d, kv_dtype_bytes)
}

/// Weights plus cache plus margin, up to the most 64 bits can hold.
pub open spec fn priced(shape: ModelShape, window: nat, dtype_bytes: nat) -> u64 {
    let base = shape.weights_bytes as nat + cache_size(shape, window, dtype_bytes);
    capped(base * (MARGIN_NUM as nat) / (MARGIN_DEN as nat))
}

/// Weights plus cache plus margin, labelled as computed.
///
/// Never `Unknown`: a shape that parsed is a shape that can be priced.
pub fn computed(shape: &ModelShape, context_tokens: u32, kv_dtype_bytes: u64) -> (e: Estimate)
    ensures
        e == (Estimate {
            bytes: Some(priced(*shape, context_tokens as nat, kv_dtype_bytes as nat)),
            basis: Basis::Computed,
            samples: 0,
            spread_bytes: None,
        }),
{
    let base = shape.weights_bytes.saturating_add(kv_bytes(shape, context_tokens, kv_dtype_bytes));
    // Widened: a product that stopped short before the division would price a
    // model below its own weights.
    let wide: u128 = base as u128 * MARGIN_NUM as u128 / MARGIN_DEN as u128;
    let bytes: u64 = if wide <= u64::MAX as u128 {
        wide as u64
    } else {
        u64::MAX
    };
    Estimate { bytes: Some(bytes), basis: Basis::Computed, samples: 0, spread_bytes: None }
}

/// A bigger window never costs less, nor does a wider cache element.
pub proof fn a_bigger_window_never_costs_less(
    shape: ModelShape,
    small: nat,
    big: nat,
    narrow: nat,
    wide: nat,
)
    requires
        small <= big,
        narrow <= wide,
    ensures
        cache_size(shape, small, narrow) <= cache_size(shape, big, wide),
        priced(shape, small, narrow) <= priced(shape, big, wide),
{
    let per = 2 * (shape.n_layers as nat) * (shape.n_kv_heads as nat) * (shape.head_dim as nat);
    assert(per * small * narrow <= per * big * wide) by (nonlinear_arith)
        requires
            small <= big,
            narrow <= wide,
    ;
}

/// The cache grows in proportion to the window.
pub proof fn the_cache_scales_with_the_window(shape: ModelShape, window: nat, times: nat, width: nat)
    ensures
        cache_size(shape, times * window, width) == times * cache_size(shape, window, width),
{
    let per = 2 * (shape.n_layers as nat) * (shape.n_kv_heads as nat) * (shape.head_dim as nat);
    assert(per * (times * window) * width == times * (per * window * width)) by (nonlinear_arith);
}

/// A computed figure is never below the weights plus the cache, up to the most
/// 64 bits can hold.
pub proof fn a_computed_figure_covers_weights_and_cache(
    shape: ModelShape,
    window: nat,
    dtype_bytes: nat,
)
    ensures
        capped(shape.weights_bytes as nat + cache_size(shape, window, dtype_bytes)) <= priced(
            shape,
            window,
            dtype_bytes,
        ),
{
}

/// However large the figures, a computed cost never comes out small by
/// wrapping: it is at least the weights, and at least the cache.
pub proof fn a_computed_figure_never_wraps(shape: ModelShape, window: nat, dtype_bytes: nat)
    ensures
        priced(shape, window, dtype_bytes) >= shape.weights_bytes,
        priced(shape, window, dtype_bytes) >= capped(cache_size(shape, window, dtype_bytes)),
{
}

/// The cache is in proportion to every dimension it has: the layers, the kv
/// heads, the width of a head, the window and the width of an element. One of
/// each costs two bytes, one for K and one for V.
pub proof fn the_cache_scales_with_every_dimension(
    a: ModelShape,
    b: ModelShape,
    window: nat,
    width: nat,
    t: nat,
)
    ensures
        b.n_layers == t * a.n_layers && b.n_kv_heads == a.n_kv_heads && b.head_dim == a.head_dim
            ==> cache_size(b, window, width) == t * cache_size(a, window, width),
        b.n_layers == a.n_layers && b.n_kv_heads == t * a.n_kv_heads && b.head_dim == a.head_dim
            ==> cache_size(b, window, width) == t * cache_size(a, window, width),
        b.n_layers == a.n_layers && b.n_kv_heads == a.n_kv_heads && b.head_dim == t * a.head_dim
            ==> cache_size(b, window, width) == t * cache_size(a, window, width),
        cache_size(a, t * window, width) == t * cache_size(a, window, width),
        cache_size(a, window, t * width) == t * cache_size(a, window, width),
        a.n_layers == 1 && a.n_kv_heads == 1 && a.head_dim == 1 ==> cache_size(a, 1, 1) == 2,
{
    let l = a.n_layers as nat;
    let h = a.n_kv_heads as nat;
    let d = a.head_dim as nat;
    assert(2 * (t * l) * h * d * window * width == t * (2 * l * h * d * window * width))
        by (nonlinear_arith);
    assert(2 * l * (t * h) * d * window * width == t * (2 * l * h * d * window * width))
        by (nonlinear_arith);
    assert(2 * l * h * (t * d) * window * width == t * (2 * l * h * d * window * width))
        by (nonlinear_arith);
    assert(2 * l * h * d * (t * window) * width == t * (2 * l * h * d * window * width))
        by (nonlinear_arith);
    assert(2 * l * h * d * window * (t * width) == t * (2 * l * h * d * window * width))
        by (nonlinear_arith);
}

/// A computed figure is the weights and the cache and eight parts in a hundred
/// more, rounded down, unless 64 bits cannot hold it.
pub proof fn a_computed_figure_is_weights_cache_and_margin(
    shape: ModelShape,
    window: nat,
    dtype_bytes: nat,
)
    ensures
        ({
            let base = shape.weights_bytes as nat + cache_size(shape, window, dtype_bytes);
            let figure = priced(shape, window, dtype_bytes);
            if 108 * base < 100 * 0x1_0000_0000_0000_0000 {
                100 * figure <= 108 * base < 100 * figure + 100
            } else {
                figure == 0xffff_ffff_ffff_ffff
            }
        }),
{
    let base = shape.weights_bytes as nat + cache_size(shape, window, dtype_bytes);
    assert(base * (MARGIN_NUM as nat) == 108 * base);
    assert(MARGIN_DEN as nat == 100);
}

} // verus!
