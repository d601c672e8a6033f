//! The course of training: the best loss so far, and when to stop.
use crate::number::{less, Double, INFINITE};
use crate::text::{decimal, write_decimal};
use vstd::prelude::*;
use vstd::string::StringExecFns;

verus! {

/// The file that holds the weights with the smallest loss.
pub const BEST_FILE: &'static str = "best.safetensors";

/// After how many epochs the weights are kept in a file of their own.
pub const KEEP_EVERY: usize = 10;

/// The best loss so far, and the epoch that had it.
#[derive(Clone, Copy, Debug, PartialEq, Eq, Structural)]
pub struct Progress {
    pub best_loss: Double,
    pub best_epoch: usize,
}

/// Before the first epoch: any loss is better than none.
pub open spec fn at_start() -> Progress {
    Progress { best_loss: Double { bits: INFINITE }, best_epoch: 0 }
}

/// The progress after an epoch with a loss.
pub open spec fn after_epoch(progress: Progress, epoch: usize, loss: Double) -> Progress {
    if less(loss@, progress.best_loss@) {
        Progress { best_loss: loss, best_epoch: epoch }
    } else {
        progress
    }
}

/// Whether the losses have not improved for longer than they are given.
pub open spec fn is_over(progress: Progress, epoch: usize, patience: usize) -> bool {
    epoch - progress.best_epoch > patience
}

/// What follows from an epoch.
#[derive(Clone, Copy, Debug, PartialEq, Eq, Structural)]
pub struct Verdict {
    /// The weights are the best so far and are to be kept.
    pub improved: bool,
    /// The losses have not improved for too long.
    pub stop: bool,
}

impl Progress {
    /// The progress before the first epoch.
    pub fn new() -> (progress: Progress)
        ensures
            progress == at_start(),
    {
        Progress { best_loss: Double { bits: INFINITE }, best_epoch: 0 }
    }

    /// Takes the loss of an epoch.
    pub fn take(&mut self, epoch: usize, loss: Double, patience: usize) -> (verdict: Verdict)
        requires
            old(self).best_epoch <= epoch,
        ensures
            *final(self) == after_epoch(*old(self), epoch, loss),
            final(self).best_epoch <= epoch,
            verdict.improved == less(loss@, old(self).best_loss@),
            verdict.stop == (epoch - final(self).best_epoch > patience),
            verdict.stop == is_over(*final(self), epoch, patience),
    {
        let improved = loss.lt(self.best_loss);
        if improved {
            self.best_loss = loss;
            self.best_epoch = epoch;
        }
        Verdict { improved, stop: epoch - self.best_epoch > patience }
    }
}

/// A number written in decimal with zeros before it, up to four digits.
pub open spec fn four_digits(n: int) -> Seq<char> {
    if n < 10 {
        "000"@ + decimal(n)
    } else if n < 100 {
        "00"@ + decimal(n)
    } else if n < 1000 {
        "0"@ + decimal(n)
    } else {
        decimal(n)
    }
}

/// Whether the weights are kept in a file of their own after an epoch.
pub open spec fn has_file(epoch: int) -> bool {
    (epoch + 1) % 10 == 0
}

/// The name of such a file.
pub open spec fn file_name(epoch: int) -> Seq<char> {
    "epoch_"@ + four_digits(epoch + 1) + ".safetensors"@
}

/// The file that the weights are kept in after an epoch; epochs count from
/// zero, and every tenth has one.
pub fn epoch_file(epoch: usize) -> (name: Option<String>)
    requires
        epoch < usize::MAX,
    ensures
        match name {
            Some(text) => (epoch + 1) % 10 == 0 && text@ == "epoch_"@ + four_digits(epoch + 1)
                + ".safetensors"@,
            None => (epoch + 1) % 10 != 0,
        },
        name is Some <==> has_file(epoch as int),
        name matches Some(text) ==> text@ == file_name(epoch as int),
{
    let number: usize = epoch + 1;
    if number % KEEP_EVERY != 0 {
        return None;
    }
    let mut text: String = "epoch_".to_owned();
    if number < 10 {
        text.append("000");
    } else if number < 100 {
        text.append("00");
    } else if number < 1000 {
        text.append("0");
    }
    text.append(write_decimal(number).as_str());
    text.append(".safetensors");
    assert(text@ =~= "epoch_"@ + four_digits(epoch + 1) + ".safetensors"@);
    Some(text)
}

/// The progress after a list of losses.
pub open spec fn after_losses(losses: Seq<Double>) -> Progress
    decreases losses.len(),
{
    if losses.len() == 0 {
        at_start()
    } else {
        after_epoch(
            after_losses(losses.drop_last()),
            (losses.len() - 1) as usize,
            losses.last(),
        )
    }
}

/// The best loss is the least: no epoch had a smaller one, and none before the
/// best epoch had as small a one. Where no loss is a finite number, there is
/// none yet.
pub proof fn law_best_is_the_least(losses: Seq<Double>, e: int)
    requires
        0 <= e < losses.len() <= usize::MAX,
    ensures
        !less(losses[e]@, after_losses(losses).best_loss@),
        e < after_losses(losses).best_epoch ==> losses[e]@ is None || less(
            after_losses(losses).best_loss@,
            losses[e]@,
        ),
        after_losses(losses).best_epoch < losses.len(),
        after_losses(losses).best_loss == losses[after_losses(losses).best_epoch as int]
            || after_losses(losses) == at_start(),
    decreases losses.len(),
{
    let n = losses.len();
    let shorter = losses.drop_last();
    lemma_best_is_known(losses);
    if n > 1 {
        if e < n - 1 {
            law_best_is_the_least(shorter, e);
        } else {
            law_best_is_the_least(shorter, 0);
        }
        assert(losses[e] == if e < n - 1 { shorter[e] } else { losses.last() });
        let best = after_losses(shorter).best_epoch as int;
        assert(losses[best] == shorter[best]);
    } else {
        assert(after_losses(shorter) == at_start());
    }
}

proof fn lemma_best_is_known(losses: Seq<Double>)
    ensures
        after_losses(losses).best_loss@ is Some,
    decreases losses.len(),
{
    if losses.len() > 0 {
        lemma_best_is_known(losses.drop_last());
    }
}

/// Training goes on as long as it improves: at an epoch with a new best loss
/// it never stops.
pub proof fn law_improvement_goes_on(progress: Progress, epoch: usize, loss: Double, patience: usize)
    requires
        less(loss@, progress.best_loss@),
    ensures
        !(epoch - after_epoch(progress, epoch, loss).best_epoch > patience),
{
}

/// Before the first epoch every finite loss is an improvement.
pub proof fn law_any_loss_is_better_than_none(loss: Double)
    requires
        crate::number::magnitude(loss.bits) < INFINITE,
    ensures
        less(loss@, at_start().best_loss@),
        at_start().best_epoch == 0,
{
    crate::number::lemma_order_key(loss.bits, INFINITE);
}

/// A smaller loss takes the place of the best and brings its epoch; any other
/// leaves both.
pub proof fn law_only_smaller_losses_are_kept(progress: Progress, epoch: usize, loss: Double)
    ensures
        ({
            let next = after_epoch(progress, epoch, loss);
            let smaller = loss@ is Some && progress.best_loss@ is Some && loss@->0
                < progress.best_loss@->0;
            &&& smaller ==> next.best_loss == loss && next.best_epoch == epoch
            &&& !smaller ==> next.best_loss == progress.best_loss && next.best_epoch
                == progress.best_epoch
        }),
{
}

proof fn lemma_leading_zero(digits: Seq<char>)
    requires
        crate::text::all_digits(digits),
    ensures
        crate::text::digits_value(seq!['0'] + digits) == crate::text::digits_value(digits),
        crate::text::all_digits(seq!['0'] + digits),
    decreases digits.len(),
{
    let longer = seq!['0'] + digits;
    assert forall|i: int| 0 <= i < longer.len() implies crate::text::is_digit(
        #[trigger] longer[i],
    ) by {
        if i > 0 {
            assert(crate::text::is_digit(digits[i - 1]));
        }
    }
    if digits.len() > 0 {
        let fewer = digits.drop_last();
        assert forall|i: int| 0 <= i < fewer.len() implies crate::text::is_digit(
            #[trigger] fewer[i],
        ) by {
            assert(crate::text::is_digit(digits[i]));
        }
        lemma_leading_zero(fewer);
        assert(longer.drop_last() =~= seq!['0'] + fewer);
    } else {
        assert(longer.drop_last() =~= Seq::empty());
        assert(crate::text::digits_value(longer.drop_last()) == 0);
    }
}

proof fn lemma_decimal_length(n: int)
    requires
        0 <= n,
    ensures
        n < 10 ==> decimal(n).len() == 1,
        10 <= n < 100 ==> decimal(n).len() == 2,
        100 <= n < 1000 ==> decimal(n).len() == 3,
        n >= 1000 ==> decimal(n).len() >= 4,
    decreases n,
{
    if n >= 10 {
        lemma_decimal_length(n / 10);
    }
}

/// The number in the name of a file has four digits, or more where it needs more,
/// and counts the epoch.
pub proof fn law_file_numbers_have_four_digits(n: int)
    requires
        0 <= n,
    ensures
        crate::text::all_digits(four_digits(n)),
        crate::text::digits_value(four_digits(n)) == n,
        four_digits(n).len() >= 4,
        n < 10000 ==> four_digits(n).len() == 4,
        n >= 1000 ==> four_digits(n) == decimal(n),
{
    reveal_strlit("000");
    reveal_strlit("00");
    reveal_strlit("0");
    crate::text::law_decimals_count_their_number(n);
    lemma_decimal_length(n);
    let one = seq!['0'] + decimal(n);
    let two = seq!['0'] + one;
    let three = seq!['0'] + two;
    lemma_leading_zero(decimal(n));
    lemma_leading_zero(one);
    lemma_leading_zero(two);
    assert("0"@ + decimal(n) =~= one);
    assert("00"@ + decimal(n) =~= two);
    assert("000"@ + decimal(n) =~= three);
    if 1000 <= n < 10000 {
        lemma_decimal_length(n / 10);
        assert(decimal(n).len() == decimal(n / 10).len() + 1);
    }
}

/// Training goes on for as many epochs after the best one as it is given, and
/// stops at the next.
pub proof fn law_patience_lasts_that_long(progress: Progress, epoch: usize, patience: usize)
    requires
        progress.best_epoch <= epoch,
    ensures
        epoch <= progress.best_epoch + patience ==> !is_over(progress, epoch, patience),
        epoch >= progress.best_epoch + patience + 1 ==> is_over(progress, epoch, patience),
{
}

/// The first file is that of the tenth epoch, and from one with a file to the next
/// it is ten epochs: none of the nine between has one.
pub proof fn law_every_tenth_epoch_has_a_file(epoch: int, more: int)
    requires
        0 <= epoch,
        0 <= more < 10,
    ensures
        has_file(9),
        epoch < 9 ==> !has_file(epoch),
        has_file(epoch) ==> has_file(epoch + 10),
        has_file(epoch) && 0 < more ==> !has_file(epoch + more),
{
}

/// The name of a file says which epoch it is of, counted from one, between a fixed
/// beginning and a fixed end.
pub proof fn law_files_are_named_by_their_epoch(epoch: int)
    requires
        0 <= epoch,
    ensures
        ({
            let name = file_name(epoch);
            let digits = name.subrange(6, name.len() - 12);
            &&& name.take(6) == "epoch_"@
            &&& name.skip(name.len() - 12) == ".safetensors"@
            &&& crate::text::all_digits(digits)
            &&& crate::text::digits_value(digits) == epoch + 1
        }),
{
    reveal_strlit("epoch_");
    reveal_strlit(".safetensors");
    law_file_numbers_have_four_digits(epoch + 1);
    let name = file_name(epoch);
    assert(name.take(6) =~= "epoch_"@);
    assert(name.skip(name.len() - 12) =~= ".safetensors"@);
    assert(name.subrange(6, name.len() - 12) =~= four_digits(epoch + 1));
}

} // verus!
