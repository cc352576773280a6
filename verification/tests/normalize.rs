use zho_complexity::normalize::{Column, FEATURE_COUNT};
use zho_complexity::{FeatureStats, SentenceFeatures};

fn from_count(count: u32) -> f32 {
    count as f32
}

fn z_score(value: f32, mean: f32, std: f32) -> f32 {
    if std < 1e-6 {
        0.0
    } else {
        (value - mean) / std
    }
}

#[test]
fn test_feature_stats_normalization() {
    let stats = FeatureStats {
        hsk_max_mean: 3.0,
        hsk_max_std: 1.0,
        hsk_mean_mean: 2.5,
        hsk_mean_std: 0.8,
        hsk_count_high_mean: 2.0,
        hsk_count_high_std: 1.0,
        hsk_count_low_mean: 2.0,
        hsk_count_low_std: 1.0,
        top_max_mean: 3.0,
        top_max_std: 1.0,
        top_mean_mean: 2.5,
        top_mean_std: 0.8,
        top_count_high_mean: 0.5,
        top_count_high_std: 0.5,
        total_words_mean: 8.0,
        total_words_std: 3.0,
        oov_ratio_mean: 0.1,
        oov_ratio_std: 0.05,
        sentence_length_mean: 20.0,
        sentence_length_std: 8.0,
        rare_char_ratio_mean: 0.05,
        rare_char_ratio_std: 0.03,
        avg_word_length_mean: 2.0,
        avg_word_length_std: 0.5,
    };

    let feat = SentenceFeatures {
        hsk_max: 3.0,
        hsk_mean: 2.5,
        hsk_count_high: 2,
        hsk_count_low: 2,
        top_max: 3.0,
        top_mean: 2.5,
        top_count_high: 0,
        total_words: 8,
        oov_ratio: 0.1,
        sentence_length: 20,
        rare_char_ratio: 0.05,
        avg_word_length: 2.0,
    };

    let normalized = stats.normalize(&feat, &from_count, &z_score);
    assert_eq!(normalized.len(), 12);
    assert!(normalized[0] == 0.0); // hsk_max normalized
}

fn numbered() -> SentenceFeatures<f32> {
    SentenceFeatures {
        hsk_max: 1.0,
        hsk_mean: 2.0,
        hsk_count_high: 3,
        hsk_count_low: 4,
        top_max: 5.0,
        top_mean: 6.0,
        top_count_high: 7,
        total_words: 8,
        oov_ratio: 9.0,
        sentence_length: 10,
        rare_char_ratio: 11.0,
        avg_word_length: 12.0,
    }
}

#[test]
fn columns_keep_the_order_of_the_vector() {
    let columns = numbered().columns();
    assert_eq!(columns.len(), FEATURE_COUNT);
    for (i, column) in columns.iter().enumerate() {
        let value = match column {
            Column::Number(v) => *v,
            Column::Count(c) => *c as f32,
        };
        assert_eq!(value, i as f32 + 1.0);
    }
    assert!(matches!(columns[2], Column::Count(3)));
    assert!(matches!(columns[9], Column::Count(10)));
}

#[test]
fn statistics_come_back_from_their_columns() {
    let means: Vec<f32> = (0..12).map(|i| i as f32).collect();
    let stds: Vec<f32> = (0..12).map(|i| 100.0 + i as f32).collect();
    let stats = FeatureStats::from_columns(&means, &stds);
    assert_eq!(stats.means(), means);
    assert_eq!(stats.stds(), stds);
    assert_eq!(stats.hsk_max_mean, 0.0);
    assert_eq!(stats.hsk_count_low_std, 103.0);
    assert_eq!(stats.avg_word_length_mean, 11.0);
}

#[test]
fn each_column_is_normalized_with_its_own_statistics() {
    let means: Vec<f32> = (0..12).map(|i| i as f32).collect();
    let stds: Vec<f32> = vec![1.0, 2.0, 4.0, 0.0, 0.5, 1.0, 1.0, 8.0, 1.0, 0.25, 1.0, 2.0];
    let stats = FeatureStats::from_columns(&means, &stds);
    let normalized = stats.normalize(&numbered(), &from_count, &z_score);
    assert_eq!(
        normalized,
        vec![1.0, 0.5, 0.25, 0.0, 2.0, 1.0, 1.0, 0.125, 1.0, 4.0, 1.0, 0.5]
    );
}
