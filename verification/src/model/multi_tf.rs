//! The pyramid over time, its heads, and what each head is trained by.
//!
//! A pyramid is a list of strides, one for each level. A level is two
//! convolutions: the first shortens the series by the stride, the second keeps
//! its length. The mean over what is left goes to the heads.
use crate::label::czsc_label::TIMEFRAMES;
use crate::text::{
    decimal, digit_char, is_digit, law_decimals_are_distinct, lemma_two_digits, write_decimal,
};
use vstd::prelude::*;
use vstd::string::StringExecFns;

verus! {

/// How many channels the levels have from the second on.
pub const D_MODEL: usize = 128;

/// How many values a bar enters with.
pub const INPUT_CHANNELS: usize = 5;

/// The strides of the pyramid: each level stands for the next timeframe.
pub const DEFAULT_STRIDES: [usize; 7] = [5, 3, 2, 2, 4, 6, 7];

/// Below this length no level is run.
pub const MIN_LENGTH: usize = 7;

/// The kernel and the padding of the second convolution of every level.
pub const SECOND_KERNEL: usize = 5;

pub const SECOND_PADDING: usize = 2;

/// A number of channels that grows with the level.
pub fn channel_for(level: usize) -> (channels: usize)
    ensures
        channels == (if level == 0 {
            5
        } else if level <= 6 {
            16 * (level + 1)
        } else {
            D_MODEL as int
        }),
{
    match level {
        0 => 5,
        1 => 32,
        2 => 48,
        3 => 64,
        4 => 80,
        5 => 96,
        6 => 112,
        _ => D_MODEL,
    }
}

/// How many heads a pyramid has: the return, seven for the one-minute
/// timeframe, and four for every level.
pub fn head_count(strides: &[usize]) -> (heads: usize)
    requires
        8 + 4 * strides@.len() <= usize::MAX,
    ensures
        heads == 8 + 4 * strides@.len(),
{
    8 + strides.len() * 4
}

/// The two convolutions of a level.
#[derive(Clone, Copy, Debug, PartialEq, Eq, Structural)]
pub struct LevelPlan {
    pub in_channels: usize,
    pub mid_channels: usize,
    pub out_channels: usize,
    pub kernel: usize,
    pub padding: usize,
    pub stride: usize,
}

/// The channels between the two convolutions of a level.
pub open spec fn mid_channels(level: int) -> usize {
    if level == 0 {
        32
    } else if level == 1 {
        48
    } else {
        D_MODEL
    }
}

/// The channels that a level gives.
pub open spec fn out_channels(level: int) -> usize {
    if level == 0 {
        48
    } else {
        D_MODEL
    }
}

/// The channels that a level takes: those that the level before it gives.
pub open spec fn in_channels(level: int) -> usize {
    if level == 0 {
        INPUT_CHANNELS
    } else {
        out_channels(level - 1)
    }
}

/// The kernel that goes with a stride.
pub open spec fn kernel_for(stride: usize) -> usize {
    if stride >= 5 {
        7
    } else if stride >= 3 {
        5
    } else {
        3
    }
}

/// The convolutions of a level.
pub open spec fn level_plan(level: int, stride: usize) -> LevelPlan {
    LevelPlan {
        in_channels: in_channels(level),
        mid_channels: mid_channels(level),
        out_channels: out_channels(level),
        kernel: kernel_for(stride),
        padding: (kernel_for(stride) / 2) as usize,
        stride,
    }
}

/// The levels of a pyramid.
pub fn level_plans(strides: &[usize]) -> (levels: Vec<LevelPlan>)
    ensures
        levels@.len() == strides@.len(),
        forall|i: int|
            0 <= i < levels@.len() ==> #[trigger] levels@[i] == level_plan(i, strides@[i]),
{
    let mut levels: Vec<LevelPlan> = Vec::new();
    let mut given: usize = INPUT_CHANNELS;
    let mut i: usize = 0;
    while i < strides.len()
        invariant
            i <= strides@.len(),
            levels@.len() == i,
            given == in_channels(i as int),
            forall|j: int| 0 <= j < i ==> #[trigger] levels@[j] == level_plan(j, strides@[j]),
        decreases strides@.len() - i,
    {
        let stride: usize = strides[i];
        let (mid, out): (usize, usize) = match i {
            0 => (32, 48),
            1 => (48, D_MODEL),
            _ => (D_MODEL, D_MODEL),
        };
        let kernel: usize = if stride >= 5 {
            7
        } else if stride >= 3 {
            5
        } else {
            3
        };
        levels.push(
            LevelPlan {
                in_channels: given,
                mid_channels: mid,
                out_channels: out,
                kernel,
                padding: kernel / 2,
                stride,
            },
        );
        given = out;
        i += 1;
    }
    levels
}

/// The name of a convolution of a level.
pub open spec fn conv_name(level: int, second: bool) -> Seq<char> {
    "c"@ + decimal(level) + (if second { "b"@ } else { "a"@ })
}

/// Names a convolution of a level.
pub fn name_conv(level: usize, second: bool) -> (name: String)
    ensures
        name@ == conv_name(level as int, second),
{
    let mut name: String = "c".to_owned();
    name.append(write_decimal(level).as_str());
    name.append(if second { "b" } else { "a" });
    name
}

/// The heads of the one-minute timeframe.
pub const MINUTE_HEADS: [&'static str; 7] = ["h1tp", "h1bt", "h1bd", "h1bs", "h1zs", "h1bp", "h1bpd"];

/// The endings of the heads that every level has.
pub const LEVEL_HEADS: [&'static str; 4] = ["tp", "bt", "bd", "zs"];

/// The name of a head.
pub open spec fn head_name(i: int) -> Seq<char> {
    if i == 0 {
        "h0"@
    } else if i < 8 {
        MINUTE_HEADS@[i - 1]@
    } else {
        "h"@ + decimal(i - (i - 8) % 4) + LEVEL_HEADS@[(i - 8) % 4]@
    }
}

/// Names a head.
pub fn name_head(i: usize) -> (name: String)
    ensures
        name@ == head_name(i as int),
{
    if i == 0 {
        "h0".to_owned()
    } else if i < 8 {
        MINUTE_HEADS[i - 1].to_owned()
    } else {
        let field: usize = (i - 8) % 4;
        let mut name: String = "h".to_owned();
        name.append(write_decimal(i - field).as_str());
        name.append(LEVEL_HEADS[field]);
        name
    }
}

/// Whether a head tells three classes apart: the return, and the directions.
pub open spec fn is_class_head(i: int) -> bool {
    i == 0 || i == 3 || i == 7 || (i >= 8 && (i - 8) % 4 == 2)
}

/// How many values a head gives.
pub fn head_dim(i: usize) -> (dim: usize)
    ensures
        dim == (if is_class_head(i as int) { 3int } else { 1int }),
{
    if i == 0 || i == 3 || i == 7 || (i >= 8 && (i - 8) % 4 == 2) {
        3
    } else {
        1
    }
}

/// The name of the weight that a head learns.
pub open spec fn log_var_name(i: int) -> Seq<char> {
    "lv"@ + decimal(i)
}

/// Names the weight that a head learns.
pub fn name_log_var(i: usize) -> (name: String)
    ensures
        name@ == log_var_name(i as int),
{
    let mut name: String = "lv".to_owned();
    name.append(write_decimal(i).as_str());
    name
}

/// What a head is trained by.
#[derive(Clone, Copy, Debug, PartialEq, Eq, Structural)]
pub enum LossKind {
    /// Cross entropy, over classes.
    CrossEntropy,
    /// Binary cross entropy, over a yes or a no.
    BinaryCrossEntropy,
    /// The squared error.
    SquaredError,
}

/// What a head is trained by. The heads past the default pyramid's are all
/// trained by the squared error.
pub open spec fn loss_kind_of(i: int) -> LossKind {
    if i >= 36 {
        LossKind::SquaredError
    } else if is_class_head(i) {
        LossKind::CrossEntropy
    } else if i == 1 || i == 2 || i == 6 || (i >= 8 && (i - 8) % 4 <= 1) {
        LossKind::BinaryCrossEntropy
    } else {
        LossKind::SquaredError
    }
}

/// What a head is trained by.
pub fn loss_kind(i: usize) -> (kind: LossKind)
    ensures
        kind == loss_kind_of(i as int),
{
    match i {
        0 | 3 | 7 | 10 | 14 | 18 | 22 | 26 | 30 | 34 => LossKind::CrossEntropy,
        1 | 2 | 6 | 8 | 9 | 12 | 13 | 16 | 17 | 20 | 21 | 24 | 25 | 28 | 29 | 32 | 33 =>
            LossKind::BinaryCrossEntropy,
        _ => LossKind::SquaredError,
    }
}

/// How many heads enter the loss: as many as have a prediction, a weight and
/// targets of both kinds.
pub fn loss_terms(predictions: usize, weights: usize, floats: usize, classes: usize) -> (terms:
    usize)
    ensures
        terms <= predictions && terms <= weights && terms <= floats && terms <= classes,
        terms == predictions || terms == weights || terms == floats || terms == classes,
{
    let a: usize = if predictions < weights { predictions } else { weights };
    let b: usize = if floats < classes { floats } else { classes };
    if a < b {
        a
    } else {
        b
    }
}

/// The length that a convolution leaves of a series.
pub open spec fn conv_length(len: int, kernel: int, padding: int, stride: int) -> int {
    (len + 2 * padding - kernel) / stride + 1
}

/// How many parts of a size a length has, the last perhaps a smaller one.
pub open spec fn parts(len: int, size: int) -> int {
    (len + size - 1) / size
}

/// The lengths that the levels leave of a series, level by level: no level is
/// run on a series shorter than seven, nor after one that leaves a single
/// value.
pub open spec fn lengths_from(strides: Seq<usize>, level: int, len: int) -> Seq<int>
    decreases strides.len() - level,
{
    if level >= strides.len() || len < MIN_LENGTH {
        Seq::empty()
    } else {
        let next = parts(len, strides[level] as int);
        if next <= 1 {
            seq![next]
        } else {
            seq![next] + lengths_from(strides, level + 1, next)
        }
    }
}

/// The lengths that the levels of a pyramid leave of a series, for the levels
/// that are run.
pub fn pyramid_lengths(strides: &[usize], len: usize) -> (lengths: Vec<usize>)
    requires
        forall|i: int| 0 <= i < strides@.len() ==> #[trigger] strides@[i] > 0,
    ensures
        lengths@.map_values(|x: usize| x as int) == lengths_from(strides@, 0, len as int),
{
    let mut lengths: Vec<usize> = Vec::new();
    let mut now: usize = len;
    let mut level: usize = 0;
    let ghost whole = lengths_from(strides@, 0, len as int);
    assert(lengths@.map_values(|x: usize| x as int) + whole =~= whole);
    while level < strides.len() && now >= MIN_LENGTH
        invariant
            level <= strides@.len(),
            whole == lengths_from(strides@, 0, len as int),
            forall|i: int| 0 <= i < strides@.len() ==> #[trigger] strides@[i] > 0,
            lengths@.map_values(|x: usize| x as int) + lengths_from(
                strides@,
                level as int,
                now as int,
            ) == whole,
        decreases strides@.len() - level,
    {
        let stride: usize = strides[level];
        proof {
            lemma_parts(now as int, stride as int);
        }
        let next: usize = (now - 1) / stride + 1;
        let ghost before = lengths@;
        let ghost rest = lengths_from(strides@, level as int, now as int);
        lengths.push(next);
        assert(lengths@.map_values(|x: usize| x as int) =~= before.map_values(|x: usize| x as int)
            + seq![next as int]);
        if next <= 1 {
            assert(lengths@.map_values(|x: usize| x as int) =~= whole);
            return lengths;
        }
        now = next;
        level += 1;
        assert(lengths@.map_values(|x: usize| x as int) + lengths_from(
            strides@,
            level as int,
            now as int,
        ) =~= before.map_values(|x: usize| x as int) + rest);
    }
    assert(lengths@.map_values(|x: usize| x as int) =~= whole);
    lengths
}

/// How many channels there are after some levels.
pub open spec fn channels_after(levels: int) -> usize {
    in_channels(levels)
}

/// How many channels of zeros go to the heads beside those of the last level
/// that was run, so that the heads have as many as they take. A series too
/// short for the second level leaves fewer.
pub fn head_padding(levels: usize) -> (channels: usize)
    ensures
        channels + channels_after(levels as int) == D_MODEL,
{
    match levels {
        0 => D_MODEL - INPUT_CHANNELS,
        1 => D_MODEL - 48,
        _ => 0,
    }
}

proof fn lemma_parts(len: int, size: int)
    requires
        len >= 1,
        size >= 1,
    ensures
        parts(len, size) == (len - 1) / size + 1,
        1 <= parts(len, size) <= len,
{
    vstd::arithmetic::div_mod::lemma_div_plus_one(len - 1, size);
    assert(len - 1 + size == size + (len - 1));
    vstd::arithmetic::div_mod::lemma_div_pos_is_pos(len - 1, size);
    vstd::arithmetic::div_mod::lemma_div_nonincreasing(len - 1, size);
}

/// The first convolution of a level leaves a value for every stride begun, and
/// the second leaves the length as it is.
pub proof fn law_levels_divide_lengths(len: int, level: int, stride: usize)
    requires
        len >= 1,
        stride >= 1,
    ensures
        conv_length(
            len,
            level_plan(level, stride).kernel as int,
            level_plan(level, stride).padding as int,
            stride as int,
        ) == parts(len, stride as int),
        conv_length(len, SECOND_KERNEL as int, SECOND_PADDING as int, 1) == len,
{
    lemma_parts(len, stride as int);
}

/// What a level gives is what the next level takes; the first takes the values
/// of a bar, and from the second on every level gives what the heads take.
pub proof fn law_levels_fit_together(level: int, stride: usize, next: usize)
    requires
        0 <= level,
    ensures
        level_plan(0, stride).in_channels == INPUT_CHANNELS,
        level_plan(level + 1, next).in_channels == level_plan(level, stride).out_channels,
        level_plan(level + 1, next).out_channels == D_MODEL,
{
}

/// The product of the first strides.
pub open spec fn stride_product(strides: Seq<usize>, n: int) -> int
    decreases n,
{
    if n <= 0 {
        1
    } else {
        stride_product(strides, n - 1) * strides[n - 1]
    }
}

proof fn lemma_nested_parts(len: int, a: int, b: int)
    requires
        len >= 1,
        a >= 1,
        b >= 1,
    ensures
        parts(parts(len, a), b) == parts(len, a * b),
        a * b >= 1,
{
    assert(a * b >= 1) by (nonlinear_arith)
        requires
            a >= 1,
            b >= 1,
    ;
    lemma_parts(len, a);
    lemma_parts(parts(len, a), b);
    lemma_parts(len, a * b);
    vstd::arithmetic::div_mod::lemma_div_denominator(len - 1, a, b);
}

proof fn lemma_length_at(strides: Seq<usize>, level: int, len: int, whole: int, j: int)
    requires
        forall|i: int| 0 <= i < strides.len() ==> #[trigger] strides[i] > 0,
        0 <= level,
        whole >= 1,
        stride_product(strides, level) >= 1,
        len == parts(whole, stride_product(strides, level)),
        0 <= j < lengths_from(strides, level, len).len(),
    ensures
        level + j < strides.len(),
        lengths_from(strides, level, len)[j] == parts(
            whole,
            stride_product(strides, level + j + 1),
        ),
    decreases j,
{
    lemma_parts(whole, stride_product(strides, level));
    let stride = strides[level] as int;
    let next = parts(len, stride);
    lemma_nested_parts(whole, stride_product(strides, level), stride);
    assert(stride_product(strides, level + 1) == stride_product(strides, level) * stride);
    if j > 0 {
        assert(lengths_from(strides, level, len) =~= seq![next] + lengths_from(
            strides,
            level + 1,
            next,
        ));
        lemma_length_at(strides, level + 1, next, whole, j - 1);
        assert(lengths_from(strides, level, len)[j] == lengths_from(strides, level + 1, next)[j
            - 1]);
    }
}

/// The length that a level leaves is the whole length divided by the product
/// of the strides up to it, rounded up.
pub proof fn law_lengths_divide_the_whole(strides: Seq<usize>, len: int, j: int)
    requires
        forall|i: int| 0 <= i < strides.len() ==> #[trigger] strides[i] > 0,
        len >= 1,
        0 <= j < lengths_from(strides, 0, len).len(),
    ensures
        j < strides.len(),
        lengths_from(strides, 0, len)[j] == parts(len, stride_product(strides, j + 1)),
{
    lemma_parts(len, 1);
    lemma_length_at(strides, 0, len, len, j);
}

/// A short series has its surplus levels cut off: no more levels are run than
/// there are, none is run on a series shorter than seven, and every head has
/// its channels whatever the length.
pub proof fn law_short_series_are_cut(strides: Seq<usize>, len: int)
    ensures
        lengths_from(strides, 0, len).len() <= strides.len(),
        len < MIN_LENGTH ==> lengths_from(strides, 0, len).len() == 0,
        channels_after(lengths_from(strides, 0, len).len() as int) <= D_MODEL,
{
    lemma_level_count(strides, 0, len);
}

proof fn lemma_level_count(strides: Seq<usize>, level: int, len: int)
    requires
        0 <= level <= strides.len(),
    ensures
        lengths_from(strides, level, len).len() <= strides.len() - level,
    decreases strides.len() - level,
{
    if level < strides.len() && len >= MIN_LENGTH {
        lemma_level_count(strides, level + 1, parts(len, strides[level] as int));
    }
}

/// Each level of the default pyramid has the resolution of a timeframe.
pub proof fn law_levels_are_timeframes(level: int)
    requires
        0 <= level < 7,
    ensures
        stride_product(DEFAULT_STRIDES@, level + 1) == TIMEFRAMES@[level + 1].1,
{
    let strides = DEFAULT_STRIDES@;
    assert(stride_product(strides, 0) == 1);
    assert(stride_product(strides, 1) == 1 * 5);
    assert(stride_product(strides, 2) == 5 * 3);
    assert(stride_product(strides, 3) == 15 * 2);
    assert(stride_product(strides, 4) == 30 * 2);
    assert(stride_product(strides, 5) == 60 * 4);
    assert(stride_product(strides, 6) == 240 * 6);
    assert(stride_product(strides, 7) == 1440 * 7);
}

proof fn lemma_minute_heads(i: int)
    requires
        0 <= i < 8,
    ensures
        head_name(i).len() == seq![2int, 4, 4, 4, 4, 4, 4, 5][i],
        head_name(i)[1] == (if i == 0 { '0' } else { '1' }),
        i > 0 ==> head_name(i)[2] == seq!['t', 'b', 'b', 'b', 'z', 'b', 'b'][i - 1],
        i > 0 ==> head_name(i)[3] == seq!['p', 't', 'd', 's', 's', 'p', 'p'][i - 1],
{
    reveal_strlit("h0");
    reveal_strlit("h1tp");
    reveal_strlit("h1bt");
    reveal_strlit("h1bd");
    reveal_strlit("h1bs");
    reveal_strlit("h1zs");
    reveal_strlit("h1bp");
    reveal_strlit("h1bpd");
}

proof fn lemma_level_heads(i: int)
    requires
        i >= 8,
    ensures
        ({
            let name = head_name(i);
            let field = (i - 8) % 4;
            let number = decimal(i - field);
            &&& name.len() == number.len() + 3
            &&& name.subrange(1, number.len() as int + 1) == number
            &&& name[name.len() - 2] == seq!['t', 'b', 'b', 'z'][field]
            &&& name[name.len() - 1] == seq!['p', 't', 'd', 's'][field]
        }),
{
    reveal_strlit("h");
    reveal_strlit("tp");
    reveal_strlit("bt");
    reveal_strlit("bd");
    reveal_strlit("zs");
    let number = decimal(i - (i - 8) % 4);
    assert(head_name(i).subrange(1, number.len() as int + 1) =~= number);
}

/// No two heads have the same name.
pub proof fn law_head_names_are_distinct(i: int, j: int)
    requires
        0 <= i < j,
    ensures
        head_name(i) != head_name(j),
{
    if i < 8 {
        lemma_minute_heads(i);
    } else {
        lemma_level_heads(i);
    }
    if j < 8 {
        lemma_minute_heads(j);
    } else {
        lemma_level_heads(j);
        let m = j - (j - 8) % 4;
        let number = decimal(m);
        law_decimals_are_distinct(m, if i < 8 { 1 } else { i - (i - 8) % 4 });
        if i < 8 {
            let name = head_name(j);
            assert(name.subrange(1, number.len() as int + 1)[0] == name[1]);
            if m >= 10 {
                lemma_two_digits(m);
                assert(name.subrange(1, number.len() as int + 1)[1] == name[2]);
                assert(is_digit(number[1]));
            } else {
                assert(number[0] == digit_char(m));
            }
        }
    }
}

/// No two convolutions have the same name.
pub proof fn law_conv_names_are_distinct(a: int, a_second: bool, b: int, b_second: bool)
    requires
        0 <= a,
        0 <= b,
        a != b || a_second != b_second,
    ensures
        conv_name(a, a_second) != conv_name(b, b_second),
{
    reveal_strlit("c");
    reveal_strlit("a");
    reveal_strlit("b");
    law_decimals_are_distinct(a, b);
    if conv_name(a, a_second) == conv_name(b, b_second) {
        assert(conv_name(a, a_second).last() == (if a_second { 'b' } else { 'a' }));
        assert(conv_name(b, b_second).last() == (if b_second { 'b' } else { 'a' }));
        assert(conv_name(a, a_second).skip(1).drop_last() =~= decimal(a));
        assert(conv_name(b, b_second).skip(1).drop_last() =~= decimal(b));
    }
}

/// No two heads learn the weight of one name.
pub proof fn law_log_var_names_are_distinct(i: int, j: int)
    requires
        0 <= i < j,
    ensures
        log_var_name(i) != log_var_name(j),
{
    reveal_strlit("lv");
    law_decimals_are_distinct(i, j);
    assert(log_var_name(i).skip(2) =~= decimal(i));
    assert(log_var_name(j).skip(2) =~= decimal(j));
}

/// The heads that are trained over classes are those that give three values,
/// as long as no head stands past the default pyramid's.
pub proof fn law_class_heads_are_trained_over_classes(i: int)
    requires
        0 <= i < 8 + 4 * DEFAULT_STRIDES@.len(),
    ensures
        loss_kind_of(i) == LossKind::CrossEntropy <==> is_class_head(i),
{
}

/// So many parts of a size are enough for a length, and one fewer is not.
pub proof fn law_parts_are_just_enough(len: int, size: int)
    requires
        len >= 0,
        size >= 1,
    ensures
        parts(len, size) * size >= len,
        (parts(len, size) - 1) * size < len || len == 0,
        len == 0 ==> parts(len, size) == 0,
{
    let n = parts(len, size);
    vstd::arithmetic::div_mod::lemma_fundamental_div_mod(len + size - 1, size);
    vstd::arithmetic::div_mod::lemma_mod_bound(len + size - 1, size);
    vstd::arithmetic::mul::lemma_mul_is_commutative(n, size);
    assert((n - 1) * size == n * size - size) by (nonlinear_arith);
    if len == 0 {
        vstd::arithmetic::div_mod::lemma_fundamental_div_mod_converse(size - 1, size, 0, size - 1);
    }
}

proof fn lemma_levels_run(strides: Seq<usize>, level: int, len: int, j: int)
    requires
        0 <= level <= strides.len(),
    ensures
        ({
            let list = lengths_from(strides, level, len);
            let into = |i: int| if i == 0 { len } else { list[i - 1] };
            &&& 0 <= j < list.len() ==> into(j) >= 7 && list[j] == parts(
                into(j),
                strides[level + j] as int,
            )
            &&& level + list.len() < strides.len() ==> into(list.len() as int) < 7
            &&& level + list.len() <= strides.len()
        }),
    decreases strides.len() - level,
{
    let list = lengths_from(strides, level, len);
    if level < strides.len() && len >= MIN_LENGTH {
        let next = parts(len, strides[level] as int);
        if next > 1 {
            let rest = lengths_from(strides, level + 1, next);
            assert(list =~= seq![next] + rest);
            lemma_levels_run(strides, level + 1, next, j - 1);
            if rest.len() > 0 {
                assert(list[rest.len() as int] == rest[rest.len() - 1]);
            }
            if 0 < j < list.len() {
                assert(list[j] == rest[j - 1]);
                if j > 1 {
                    assert(list[j - 1] == rest[j - 2]);
                }
            }
        }
    }
}

/// A level is run as long as there is one and seven values or more are left for
/// it; it leaves a value for every stride begun.
pub proof fn law_levels_are_run_while_values_are_left(strides: Seq<usize>, len: int, j: int)
    ensures
        ({
            let list = lengths_from(strides, 0, len);
            let into = |i: int| if i == 0 { len } else { list[i - 1] };
            &&& 0 <= j < list.len() ==> into(j) >= 7 && list[j] == parts(
                into(j),
                strides[j] as int,
            )
            &&& list.len() < strides.len() ==> into(list.len() as int) < 7
            &&& list.len() <= strides.len()
        }),
{
    lemma_levels_run(strides, 0, len, j);
}

/// The kernel of a level is odd and reaches as far to both sides as its padding;
/// it is three wide for strides of one and two, five for three and four, and
/// seven for any longer one.
pub proof fn law_kernels_go_with_strides(level: int, stride: usize)
    ensures
        ({
            let plan = level_plan(level, stride);
            &&& plan.kernel == 2 * plan.padding + 1
            &&& plan.stride == stride
            &&& stride <= 2 ==> plan.padding == 1
            &&& 3 <= stride <= 4 ==> plan.padding == 2
            &&& stride >= 5 ==> plan.padding == 3
        }),
{
}

/// The channels of the levels: five values become 32 and then 48, those 48 and
/// then 128, and from there on it is 128 throughout.
pub proof fn law_channels_grow_to_the_width(level: int, stride: usize)
    requires
        0 <= level,
    ensures
        ({
            let plan = level_plan(level, stride);
            &&& level == 0 ==> plan.in_channels == 5 && plan.mid_channels == 32
                && plan.out_channels == 48
            &&& level == 1 ==> plan.in_channels == 48 && plan.mid_channels == 48
                && plan.out_channels == 128
            &&& level >= 2 ==> plan.in_channels == 128 && plan.mid_channels == 128
                && plan.out_channels == 128
        }),
{
}

/// The heads of a level are named by the number of the first of them and by what
/// each tells; those of the first eight have names of their own.
pub proof fn law_heads_are_named(level: int, field: int, i: int)
    requires
        0 <= level,
        0 <= field < 4,
        1 <= i < 8,
    ensures
        head_name(8 + 4 * level + field) == "h"@ + decimal(8 + 4 * level)
            + seq!["tp"@, "bt"@, "bd"@, "zs"@][field],
        head_name(i) == seq!["h1tp"@, "h1bt"@, "h1bd"@, "h1bs"@, "h1zs"@, "h1bp"@, "h1bpd"@][i - 1],
        head_name(0) == "h0"@,
{
    assert((8 + 4 * level + field - 8) % 4 == field);
}

/// Convolutions are named by their level and by which of the two they are, and
/// the weight of a head by its number.
pub proof fn law_weights_are_named(n: int)
    ensures
        conv_name(n, false) == "c"@ + decimal(n) + "a"@,
        conv_name(n, true) == "c"@ + decimal(n) + "b"@,
        log_var_name(n) == "lv"@ + decimal(n),
{
}

/// What the heads tell and what they are trained by: a direction, the return or
/// which way to trade is one of three classes; a top, a bottom or a point is a
/// yes or a no; a strength or a number of zones is a number. Past the default
/// pyramid every head is trained as if over numbers.
pub proof fn law_heads_are_trained_by_what_they_tell(level: int, field: int, i: int)
    requires
        0 <= level,
        0 <= field < 4,
        0 <= i < 8,
    ensures
        ({
            let head = 8 + 4 * level + field;
            &&& is_class_head(head) <==> field == 2
            &&& is_class_head(i) <==> i == 0 || i == 3 || i == 7
            &&& level < 7 ==> loss_kind_of(head) == seq![
                LossKind::BinaryCrossEntropy,
                LossKind::BinaryCrossEntropy,
                LossKind::CrossEntropy,
                LossKind::SquaredError,
            ][field]
            &&& level >= 7 ==> loss_kind_of(head) == LossKind::SquaredError
            &&& loss_kind_of(i) == seq![
                LossKind::CrossEntropy,
                LossKind::BinaryCrossEntropy,
                LossKind::BinaryCrossEntropy,
                LossKind::CrossEntropy,
                LossKind::SquaredError,
                LossKind::SquaredError,
                LossKind::BinaryCrossEntropy,
                LossKind::CrossEntropy,
            ][i]
        }),
{
    assert((8 + 4 * level + field - 8) % 4 == field);
}

/// A convolution leaves one value more for as many values as its stride, and a
/// series that its kernel just covers leaves one.
pub proof fn law_convolutions_step_by_their_stride(len: int, kernel: int, padding: int, stride: int)
    requires
        stride >= 1,
        len + 2 * padding >= kernel,
    ensures
        conv_length(len + stride, kernel, padding, stride) == conv_length(
            len,
            kernel,
            padding,
            stride,
        ) + 1,
        len + 2 * padding - kernel < stride ==> conv_length(len, kernel, padding, stride) == 1,
{
    let x = len + 2 * padding - kernel;
    vstd::arithmetic::div_mod::lemma_div_plus_one(x, stride);
    assert(stride + x == len + stride + 2 * padding - kernel);
    if x < stride {
        vstd::arithmetic::div_mod::lemma_basic_div(x, stride);
    }
}

/// How many channels a series has after some levels: five before the first, 48
/// after it, 128 from the second on.
pub proof fn law_channels_after_levels(levels: int)
    ensures
        channels_after(0) == 5,
        channels_after(1) == 48,
        levels >= 2 ==> channels_after(levels) == 128,
{
}

} // verus!
