use chan_distill::model::multi_tf::{
    channel_for, head_count, head_dim, head_padding, level_plans, loss_kind, loss_terms, name_conv, name_head,
    name_log_var, pyramid_lengths, LevelPlan, LossKind, DEFAULT_STRIDES,
};

#[test]
fn the_default_pyramid_has_thirty_six_heads() {
    assert_eq!(head_count(&DEFAULT_STRIDES), 36);
    assert_eq!(head_count(&[]), 8);
}

#[test]
fn channels_grow_with_the_level() {
    let channels: Vec<usize> = (0..9).map(channel_for).collect();
    assert_eq!(channels, vec![5, 32, 48, 64, 80, 96, 112, 128, 128]);
}

#[test]
fn levels_are_planned() {
    let plans = level_plans(&DEFAULT_STRIDES);
    assert_eq!(plans.len(), 7);
    assert_eq!(
        plans[0],
        LevelPlan { in_channels: 5, mid_channels: 32, out_channels: 48, kernel: 7, padding: 3, stride: 5 }
    );
    assert_eq!(
        plans[1],
        LevelPlan { in_channels: 48, mid_channels: 48, out_channels: 128, kernel: 5, padding: 2, stride: 3 }
    );
    assert_eq!(
        plans[2],
        LevelPlan { in_channels: 128, mid_channels: 128, out_channels: 128, kernel: 3, padding: 1, stride: 2 }
    );
    assert_eq!(plans[6].kernel, 7);
    for pair in plans.windows(2) {
        assert_eq!(pair[0].out_channels, pair[1].in_channels);
    }
}

#[test]
fn a_week_of_minutes_is_reduced_to_one_value() {
    assert_eq!(pyramid_lengths(&DEFAULT_STRIDES, 10080), vec![2016, 672, 336, 168, 42, 7, 1]);
}

#[test]
fn short_series_skip_levels() {
    assert_eq!(pyramid_lengths(&DEFAULT_STRIDES, 60), vec![12, 4]);
    assert_eq!(pyramid_lengths(&DEFAULT_STRIDES, 6), Vec::<usize>::new());
    assert_eq!(pyramid_lengths(&DEFAULT_STRIDES, 7), vec![2]);
    assert_eq!(pyramid_lengths(&[9], 8), vec![1]);
    assert_eq!(pyramid_lengths(&DEFAULT_STRIDES, 61), vec![13, 5]);
}

#[test]
fn lengths_divide_the_whole() {
    for len in [7usize, 60, 61, 999, 10079, 10080, 10081, 50000] {
        let mut product = 1;
        for (length, stride) in pyramid_lengths(&DEFAULT_STRIDES, len).iter().zip(DEFAULT_STRIDES) {
            product *= stride;
            assert_eq!(*length, (len + product - 1) / product);
        }
    }
}

#[test]
fn weights_have_names_of_their_own() {
    let heads: Vec<String> = (0..36).map(name_head).collect();
    assert_eq!(
        heads[..12],
        ["h0", "h1tp", "h1bt", "h1bd", "h1bs", "h1zs", "h1bp", "h1bpd", "h8tp", "h8bt", "h8bd", "h8zs"]
    );
    assert_eq!(heads[35], "h32zs");
    assert_eq!(name_conv(0, false), "c0a");
    assert_eq!(name_conv(6, true), "c6b");
    assert_eq!(name_log_var(35), "lv35");
    for i in 0..36 {
        for j in 0..i {
            assert_ne!(heads[i], heads[j]);
        }
    }
}

#[test]
fn heads_are_trained_by_what_they_give() {
    let mut counts = (0, 0, 0);
    for i in 0..36 {
        match loss_kind(i) {
            LossKind::CrossEntropy => {
                counts.0 += 1;
                assert_eq!(head_dim(i), 3);
            }
            LossKind::BinaryCrossEntropy => {
                counts.1 += 1;
                assert_eq!(head_dim(i), 1);
            }
            LossKind::SquaredError => {
                counts.2 += 1;
                assert_eq!(head_dim(i), 1);
            }
        }
    }
    assert_eq!(counts, (10, 17, 9));
    assert_eq!(loss_kind(4), LossKind::SquaredError);
    assert_eq!(loss_kind(11), LossKind::SquaredError);
    assert_eq!(loss_kind(36), LossKind::SquaredError);
}

#[test]
fn the_loss_has_as_many_terms_as_all_its_parts() {
    assert_eq!(loss_terms(36, 36, 36, 36), 36);
    assert_eq!(loss_terms(5, 4, 7, 6), 4);
    assert_eq!(loss_terms(5, 9, 3, 6), 3);
    assert_eq!(loss_terms(5, 9, 8, 0), 0);
}

#[test]
fn heads_have_their_channels_whatever_the_length() {
    for (len, padding) in [(1usize, 123usize), (6, 123), (7, 80), (30, 80), (31, 0), (10080, 0)] {
        let levels = pyramid_lengths(&DEFAULT_STRIDES, len).len();
        assert_eq!(head_padding(levels), padding, "{}", len);
    }
}
