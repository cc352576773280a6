//! Normalization of feature vectors.
use crate::types::{FeatureStats, SentenceFeatures};
use vstd::prelude::*;

verus! {

/// The number of features of a sentence.
pub const FEATURE_COUNT: usize = 12;

/// A feature: a measured number or a count.
#[derive(Clone, Copy, Debug)]
pub enum Column<N> {
    /// A measured number.
    Number(N),
    /// A count.
    Count(u32),
}

impl<N: Copy> SentenceFeatures<N> {
    /// The features in the order of the feature vector.
    pub open spec fn spec_columns(self) -> Seq<Column<N>> {
        seq![
            Column::Number(self.hsk_max),
            Column::Number(self.hsk_mean),
            Column::Count(self.hsk_count_high),
            Column::Count(self.hsk_count_low),
            Column::Number(self.top_max),
            Column::Number(self.top_mean),
            Column::Count(self.top_count_high),
            Column::Count(self.total_words),
            Column::Number(self.oov_ratio),
            Column::Count(self.sentence_length),
            Column::Number(self.rare_char_ratio),
            Column::Number(self.avg_word_length),
        ]
    }

    /// The features in the order of the feature vector.
    pub fn columns(&self) -> (r: Vec<Column<N>>)
        ensures
            r@ == self.spec_columns(),
    {
        let r: Vec<Column<N>> = vec![
            Column::Number(self.hsk_max),
            Column::Number(self.hsk_mean),
            Column::Count(self.hsk_count_high),
            Column::Count(self.hsk_count_low),
            Column::Number(self.top_max),
            Column::Number(self.top_mean),
            Column::Count(self.top_count_high),
            Column::Count(self.total_words),
            Column::Number(self.oov_ratio),
            Column::Count(self.sentence_length),
            Column::Number(self.rare_char_ratio),
            Column::Number(self.avg_word_length),
        ];
        assert(r@ =~= self.spec_columns());
        r
    }
}

/// `r` is what `z_score` makes of a feature with its mean and its standard deviation, where
/// `from_count` makes a number of a count first.
pub open spec fn is_normalized<N, F: Fn(u32) -> N, G: Fn(N, N, N) -> N>(
    column: Column<N>,
    mean: N,
    std: N,
    from_count: F,
    z_score: G,
    r: N,
) -> bool {
    match column {
        Column::Number(value) => call_ensures(z_score, (value, mean, std), r),
        Column::Count(count) => exists|value: N| #[trigger]
            call_ensures(from_count, (count,), value) && call_ensures(z_score, (value, mean, std), r),
    }
}

impl<N: Copy> FeatureStats<N> {
    /// The means in the order of the feature vector.
    pub open spec fn spec_means(self) -> Seq<N> {
        seq![
            self.hsk_max_mean,
            self.hsk_mean_mean,
            self.hsk_count_high_mean,
            self.hsk_count_low_mean,
            self.top_max_mean,
            self.top_mean_mean,
            self.top_count_high_mean,
            self.total_words_mean,
            self.oov_ratio_mean,
            self.sentence_length_mean,
            self.rare_char_ratio_mean,
            self.avg_word_length_mean,
        ]
    }

    /// The standard deviations in the order of the feature vector.
    pub open spec fn spec_stds(self) -> Seq<N> {
        seq![
            self.hsk_max_std,
            self.hsk_mean_std,
            self.hsk_count_high_std,
            self.hsk_count_low_std,
            self.top_max_std,
            self.top_mean_std,
            self.top_count_high_std,
            self.total_words_std,
            self.oov_ratio_std,
            self.sentence_length_std,
            self.rare_char_ratio_std,
            self.avg_word_length_std,
        ]
    }

    /// The means in the order of the feature vector.
    pub fn means(&self) -> (r: Vec<N>)
        ensures
            r@ == self.spec_means(),
    {
        let r: Vec<N> = vec![
            self.hsk_max_mean,
            self.hsk_mean_mean,
            self.hsk_count_high_mean,
            self.hsk_count_low_mean,
            self.top_max_mean,
            self.top_mean_mean,
            self.top_count_high_mean,
            self.total_words_mean,
            self.oov_ratio_mean,
            self.sentence_length_mean,
            self.rare_char_ratio_mean,
            self.avg_word_length_mean,
        ];
        assert(r@ =~= self.spec_means());
        r
    }

    /// The standard deviations in the order of the feature vector.
    pub fn stds(&self) -> (r: Vec<N>)
        ensures
            r@ == self.spec_stds(),
    {
        let r: Vec<N> = vec![
            self.hsk_max_std,
            self.hsk_mean_std,
            self.hsk_count_high_std,
            self.hsk_count_low_std,
            self.top_max_std,
            self.top_mean_std,
            self.top_count_high_std,
            self.total_words_std,
            self.oov_ratio_std,
            self.sentence_length_std,
            self.rare_char_ratio_std,
            self.avg_word_length_std,
        ];
        assert(r@ =~= self.spec_stds());
        r
    }

    /// The statistics with the given means and standard deviations, in the order of the feature
    /// vector.
    pub fn from_columns(means: &Vec<N>, stds: &Vec<N>) -> (r: FeatureStats<N>)
        requires
            means.len() == FEATURE_COUNT,
            stds.len() == FEATURE_COUNT,
        ensures
            r.spec_means() == means@,
            r.spec_stds() == stds@,
    {
        let r = FeatureStats {
            hsk_max_mean: means[0],
            hsk_max_std: stds[0],
            hsk_mean_mean: means[1],
            hsk_mean_std: stds[1],
            hsk_count_high_mean: means[2],
            hsk_count_high_std: stds[2],
            hsk_count_low_mean: means[3],
            hsk_count_low_std: stds[3],
            top_max_mean: means[4],
            top_max_std: stds[4],
            top_mean_mean: means[5],
            top_mean_std: stds[5],
            top_count_high_mean: means[6],
            top_count_high_std: stds[6],
            total_words_mean: means[7],
            total_words_std: stds[7],
            oov_ratio_mean: means[8],
            oov_ratio_std: stds[8],
            sentence_length_mean: means[9],
            sentence_length_std: stds[9],
            rare_char_ratio_mean: means[10],
            rare_char_ratio_std: stds[10],
            avg_word_length_mean: means[11],
            avg_word_length_std: stds[11],
        };
        assert(r.spec_means() =~= means@);
        assert(r.spec_stds() =~= stds@);
        r
    }

    /// Normalize a feature vector using z-score.
    ///
    /// The arithmetic on numbers is the caller's: `z_score` standardizes a value with a mean and a
    /// standard deviation, in this order, and `from_count` makes a number of a count.
    pub fn normalize<F: Fn(u32) -> N, G: Fn(N, N, N) -> N>(
        &self,
        feat: &SentenceFeatures<N>,
        from_count: &F,
        z_score: &G,
    ) -> (r: Vec<N>)
        requires
            forall|count: u32| call_requires(from_count, (count,)),
            forall|value: N, mean: N, std: N| call_requires(z_score, (value, mean, std)),
        ensures
            r.len() == FEATURE_COUNT,
            forall|i: int|
                0 <= i < FEATURE_COUNT ==> is_normalized(
                    feat.spec_columns()[i],
                    self.spec_means()[i],
                    self.spec_stds()[i],
                    *from_count,
                    *z_score,
                    #[trigger] r[i],
                ),
    {
        let columns: Vec<Column<N>> = feat.columns();
        let means: Vec<N> = self.means();
        let stds: Vec<N> = self.stds();
        let mut r: Vec<N> = Vec::new();
        for i in 0..FEATURE_COUNT
            invariant
                columns@ == feat.spec_columns(),
                means@ == self.spec_means(),
                stds@ == self.spec_stds(),
                columns.len() == FEATURE_COUNT,
                means.len() == FEATURE_COUNT,
                stds.len() == FEATURE_COUNT,
                forall|count: u32| call_requires(from_count, (count,)),
                forall|value: N, mean: N, std: N| call_requires(z_score, (value, mean, std)),
                r.len() == i,
                forall|j: int|
                    0 <= j < i ==> is_normalized(
                        feat.spec_columns()[j],
                        self.spec_means()[j],
                        self.spec_stds()[j],
                        *from_count,
                        *z_score,
                        #[trigger] r[j],
                    ),
        {
            let value: N = match columns[i] {
                Column::Number(v) => v,
                Column::Count(c) => from_count(c),
            };
            r.push(z_score(value, means[i], stds[i]));
        }
        r
    }
}

/// The order of the feature vector, of the means and of the standard deviations.
pub proof fn law_columns<N: Copy>(feat: SentenceFeatures<N>, stats: FeatureStats<N>)
    ensures
        feat.spec_columns().len() == 12,
        stats.spec_means().len() == 12,
        stats.spec_stds().len() == 12,
        feat.spec_columns()[0] == Column::<N>::Number(feat.hsk_max),
        feat.spec_columns()[1] == Column::<N>::Number(feat.hsk_mean),
        feat.spec_columns()[2] == Column::<N>::Count(feat.hsk_count_high),
        feat.spec_columns()[3] == Column::<N>::Count(feat.hsk_count_low),
        feat.spec_columns()[4] == Column::<N>::Number(feat.top_max),
        feat.spec_columns()[5] == Column::<N>::Number(feat.top_mean),
        feat.spec_columns()[6] == Column::<N>::Count(feat.top_count_high),
        feat.spec_columns()[7] == Column::<N>::Count(feat.total_words),
        feat.spec_columns()[8] == Column::<N>::Number(feat.oov_ratio),
        feat.spec_columns()[9] == Column::<N>::Count(feat.sentence_length),
        feat.spec_columns()[10] == Column::<N>::Number(feat.rare_char_ratio),
        feat.spec_columns()[11] == Column::<N>::Number(feat.avg_word_length),
        stats.spec_means()[0] == stats.hsk_max_mean,
        stats.spec_means()[1] == stats.hsk_mean_mean,
        stats.spec_means()[2] == stats.hsk_count_high_mean,
        stats.spec_means()[3] == stats.hsk_count_low_mean,
        stats.spec_means()[4] == stats.top_max_mean,
        stats.spec_means()[5] == stats.top_mean_mean,
        stats.spec_means()[6] == stats.top_count_high_mean,
        stats.spec_means()[7] == stats.total_words_mean,
        stats.spec_means()[8] == stats.oov_ratio_mean,
        stats.spec_means()[9] == stats.sentence_length_mean,
        stats.spec_means()[10] == stats.rare_char_ratio_mean,
        stats.spec_means()[11] == stats.avg_word_length_mean,
        stats.spec_stds()[0] == stats.hsk_max_std,
        stats.spec_stds()[1] == stats.hsk_mean_std,
        stats.spec_stds()[2] == stats.hsk_count_high_std,
        stats.spec_stds()[3] == stats.hsk_count_low_std,
        stats.spec_stds()[4] == stats.top_max_std,
        stats.spec_stds()[5] == stats.top_mean_std,
        stats.spec_stds()[6] == stats.top_count_high_std,
        stats.spec_stds()[7] == stats.total_words_std,
        stats.spec_stds()[8] == stats.oov_ratio_std,
        stats.spec_stds()[9] == stats.sentence_length_std,
        stats.spec_stds()[10] == stats.rare_char_ratio_std,
        stats.spec_stds()[11] == stats.avg_word_length_std,
{
}

/// Each feature is normalized with its own mean and its own standard deviation: entry by entry, a
/// measured number as it is, a count as the number that is made of it.
pub proof fn law_normalized_row<N: Copy, F: Fn(u32) -> N, G: Fn(N, N, N) -> N>(
    feat: SentenceFeatures<N>,
    stats: FeatureStats<N>,
    from_count: F,
    z_score: G,
    r: Seq<N>,
)
    requires
        forall|i: int|
            0 <= i < FEATURE_COUNT ==> is_normalized(
                feat.spec_columns()[i],
                stats.spec_means()[i],
                stats.spec_stds()[i],
                from_count,
                z_score,
                #[trigger] r[i],
            ),
    ensures
        FEATURE_COUNT == 12,
        call_ensures(z_score, (feat.hsk_max, stats.hsk_max_mean, stats.hsk_max_std), r[0]),
        call_ensures(z_score, (feat.hsk_mean, stats.hsk_mean_mean, stats.hsk_mean_std), r[1]),
        exists|v: N| #[trigger]
            call_ensures(from_count, (feat.hsk_count_high,), v) && call_ensures(
                z_score,
                (v, stats.hsk_count_high_mean, stats.hsk_count_high_std),
                r[2],
            ),
        exists|v: N| #[trigger]
            call_ensures(from_count, (feat.hsk_count_low,), v) && call_ensures(
                z_score,
                (v, stats.hsk_count_low_mean, stats.hsk_count_low_std),
                r[3],
            ),
        call_ensures(z_score, (feat.top_max, stats.top_max_mean, stats.top_max_std), r[4]),
        call_ensures(z_score, (feat.top_mean, stats.top_mean_mean, stats.top_mean_std), r[5]),
        exists|v: N| #[trigger]
            call_ensures(from_count, (feat.top_count_high,), v) && call_ensures(
                z_score,
                (v, stats.top_count_high_mean, stats.top_count_high_std),
                r[6],
            ),
        exists|v: N| #[trigger]
            call_ensures(from_count, (feat.total_words,), v) && call_ensures(
                z_score,
                (v, stats.total_words_mean, stats.total_words_std),
                r[7],
            ),
        call_ensures(z_score, (feat.oov_ratio, stats.oov_ratio_mean, stats.oov_ratio_std), r[8]),
        exists|v: N| #[trigger]
            call_ensures(from_count, (feat.sentence_length,), v) && call_ensures(
                z_score,
                (v, stats.sentence_length_mean, stats.sentence_length_std),
                r[9],
            ),
        call_ensures(z_score, (feat.rare_char_ratio, stats.rare_char_ratio_mean, stats.rare_char_ratio_std), r[10]),
        call_ensures(z_score, (feat.avg_word_length, stats.avg_word_length_mean, stats.avg_word_length_std), r[11]),
{
    law_columns(feat, stats);
    assert(is_normalized(
        feat.spec_columns()[0],
        stats.spec_means()[0],
        stats.spec_stds()[0],
        from_count,
        z_score,
        r[0],
    ));
    assert(is_normalized(
        feat.spec_columns()[1],
        stats.spec_means()[1],
        stats.spec_stds()[1],
        from_count,
        z_score,
        r[1],
    ));
    assert(is_normalized(
        feat.spec_columns()[2],
        stats.spec_means()[2],
        stats.spec_stds()[2],
        from_count,
        z_score,
        r[2],
    ));
    assert(is_normalized(
        feat.spec_columns()[3],
        stats.spec_means()[3],
        stats.spec_stds()[3],
        from_count,
        z_score,
        r[3],
    ));
    assert(is_normalized(
        feat.spec_columns()[4],
        stats.spec_means()[4],
        stats.spec_stds()[4],
        from_count,
        z_score,
        r[4],
    ));
    assert(is_normalized(
        feat.spec_columns()[5],
        stats.spec_means()[5],
        stats.spec_stds()[5],
        from_count,
        z_score,
        r[5],
    ));
    assert(is_normalized(
        feat.spec_columns()[6],
        stats.spec_means()[6],
        stats.spec_stds()[6],
        from_count,
        z_score,
        r[6],
    ));
    assert(is_normalized(
        feat.spec_columns()[7],
        stats.spec_means()[7],
        stats.spec_stds()[7],
        from_count,
        z_score,
        r[7],
    ));
    assert(is_normalized(
        feat.spec_columns()[8],
        stats.spec_means()[8],
        stats.spec_stds()[8],
        from_count,
        z_score,
        r[8],
    ));
    assert(is_normalized(
        feat.spec_columns()[9],
        stats.spec_means()[9],
        stats.spec_stds()[9],
        from_count,
        z_score,
        r[9],
    ));
    assert(is_normalized(
        feat.spec_columns()[10],
        stats.spec_means()[10],
        stats.spec_stds()[10],
        from_count,
        z_score,
        r[10],
    ));
    assert(is_normalized(
        feat.spec_columns()[11],
        stats.spec_means()[11],
        stats.spec_stds()[11],
        from_count,
        z_score,
        r[11],
    ));
}

} // verus!
