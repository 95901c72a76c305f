use fasten_clean::{clean_lines, Assembler, Config, QualityFloor, Stage};

fn config(min_length: usize, min_avg_quality: f32, min_trim_quality: u8, paired_end: bool) -> Config {
    Config {
        min_length,
        min_avg_quality: QualityFloor::from_bits(min_avg_quality.to_bits()),
        min_trim_quality,
        paired_end,
    }
}

fn lines_of(text: &str) -> Vec<String> {
    text.lines().map(|line| line.to_string()).collect()
}

fn clean(text: &str, config: &Config) -> String {
    clean_lines(&lines_of(text), config)
}

/// Feeds the lines to an assembler one by one and gathers what it hands back.
fn feed(text: &str, config: &Config) -> Vec<Option<String>> {
    let mut assembler = Assembler::new(*config);
    let mut outputs = Vec::new();
    for line in lines_of(text) {
        let (next, output) = assembler.step(line);
        assembler = next;
        outputs.push(output);
    }
    outputs
}

#[test]
fn single_end_read_that_meets_the_bounds_is_written_unchanged() {
    let input = "@r1\nACGTACGT\n+\n!!!!!!!!\n";
    assert_eq!(clean(input, &config(8, 0.0, 0, false)), input);
}

#[test]
fn single_end_read_with_a_blank_after_the_qualities() {
    let input = "@r1\nACGTACGT\n+\n!!!!!!!! \n";
    assert_eq!(clean(input, &config(8, 0.0, 0, false)), "@r1\nACGTACGT\n+\n!!!!!!!!\n");
}

#[test]
fn single_end_read_under_the_length_bound_is_dropped() {
    let input = "@r1\nACGTACGT\n+\n!!!!!!!!\n";
    assert_eq!(clean(input, &config(9, 0.0, 0, false)), "");
    assert_eq!(clean("@r1\nACGTACGT\n+\n!!!!!!!! \n", &config(9, 0.0, 0, false)), "");
}

#[test]
fn single_end_read_at_both_bounds_is_written() {
    let input = "@r1\nAACGTT\n+\n!IIII!\n";
    assert_eq!(clean(input, &config(4, 40.0, 20, false)), "@r1\nACGT\n+\nIIII\n");
    assert_eq!(clean(input, &config(5, 40.0, 20, false)), "");
    assert_eq!(clean(input, &config(4, 40.25, 20, false)), "");
}

#[test]
fn single_end_read_is_trimmed_before_it_is_tested() {
    let input = "@r1\nAACGTT\n+\n!IIII!\n";
    // untrimmed: six bases, a mean of 26.67
    assert_eq!(clean(input, &config(6, 0.0, 0, false)), input);
    assert_eq!(clean(input, &config(6, 0.0, 20, false)), "");
    assert_eq!(clean(input, &config(0, 30.0, 0, false)), "");
    assert_eq!(clean(input, &config(0, 30.0, 20, false)), "@r1\nACGT\n+\nIIII\n");
}

#[test]
fn read_trimmed_to_nothing_is_dropped() {
    let input = "@r1\nACGT\n+\n!!!!\n";
    assert_eq!(clean(input, &config(0, 0.0, 10, false)), "");
    assert_eq!(clean(input, &config(0, -5.0, 10, false)), "");
    assert_eq!(clean("@r1\n\n+\n\n", &Config::default()), "");
}

#[test]
fn separator_line_is_not_looked_at() {
    assert_eq!(
        clean("@r1\nACGT\n+r1 again\nIIII\n", &Config::default()),
        "@r1\nACGT\n+\nIIII\n"
    );
    assert_eq!(clean("@r1\nACGT\n\nIIII\n", &Config::default()), "@r1\nACGT\n+\nIIII\n");
}

#[test]
fn header_line_is_not_checked() {
    assert_eq!(clean("r1\nACGT\n+\nIIII\n", &Config::default()), "r1\nACGT\n+\nIIII\n");
}

#[test]
fn records_are_written_in_input_order() {
    let input = "@a\nAC\n+\nII\n@b\nACGT\n+\nIIII\n@c\nACG\n+\nIII\n@d\nACGTA\n+\nIIIII\n";
    assert_eq!(clean(input, &Config::default()), input);
    assert_eq!(
        clean(input, &config(3, 0.0, 0, false)),
        "@b\nACGT\n+\nIIII\n@c\nACG\n+\nIII\n@d\nACGTA\n+\nIIIII\n"
    );
    assert_eq!(
        clean(input, &config(4, 0.0, 0, false)),
        "@b\nACGT\n+\nIIII\n@d\nACGTA\n+\nIIIII\n"
    );
}

#[test]
fn pair_is_written_when_both_reads_pass() {
    let input = "@p/1\nACGTACGT\n+\nIIIIIIII\n@p/2\nTTGCA\n+\nIIIII\n";
    assert_eq!(clean(input, &config(5, 40.0, 0, true)), input);
}

#[test]
fn pair_is_dropped_when_the_second_read_is_short() {
    let input = "@p/1\nACGTACGT\n+\nIIIIIIII\n@p/2\nACG\n+\nIII\n";
    assert_eq!(clean(input, &config(4, 0.0, 0, true)), "");
    assert_eq!(feed(input, &config(4, 0.0, 0, true)), vec![None; 8]);
}

#[test]
fn pair_is_dropped_when_the_first_read_is_short() {
    let input = "@p/1\nACG\n+\nIII\n@p/2\nACGTACGT\n+\nIIIIIIII\n";
    assert_eq!(clean(input, &config(4, 0.0, 0, true)), "");
}

#[test]
fn pair_is_dropped_when_one_read_has_low_quality() {
    let low_second = "@p/1\nACGT\n+\nIIII\n@p/2\nACGT\n+\n5555\n";
    let low_first = "@p/1\nACGT\n+\n5555\n@p/2\nACGT\n+\nIIII\n";
    assert_eq!(clean(low_second, &config(0, 30.0, 0, true)), "");
    assert_eq!(clean(low_first, &config(0, 30.0, 0, true)), "");
    assert_eq!(clean(low_first, &config(0, 20.0, 0, true)), low_first);
}

#[test]
fn pair_is_dropped_when_one_read_is_trimmed_to_nothing() {
    let input = "@p/1\nACGT\n+\nIIII\n@p/2\nACGT\n+\n!!!!\n";
    assert_eq!(clean(input, &config(0, 0.0, 20, true)), "");
}

#[test]
fn both_reads_of_a_pair_are_trimmed() {
    let input = "@p/1\nAACGT\n+\n!IIII\n@p/2\nACGTT\n+\nIII!!\n";
    assert_eq!(
        clean(input, &config(3, 0.0, 20, true)),
        "@p/1\nACGT\n+\nIIII\n@p/2\nACG\n+\nIII\n"
    );
    assert_eq!(clean(input, &config(4, 0.0, 20, true)), "");
}

#[test]
fn pairs_are_written_in_input_order() {
    let first = "@a/1\nACGT\n+\nIIII\n@a/2\nTGCA\n+\nIIII\n";
    let second = "@b/1\nAC\n+\nII\n@b/2\nTGCA\n+\nIIII\n";
    let third = "@c/1\nACGTT\n+\nIIIII\n@c/2\nTGCAA\n+\nIIIII\n";
    let input = format!("{}{}{}", first, second, third);
    assert_eq!(clean(&input, &config(0, 0.0, 0, true)), input);
    assert_eq!(clean(&input, &config(4, 0.0, 0, true)), format!("{}{}", first, third));
}

#[test]
fn lines_after_the_last_record_are_dropped() {
    let record = "@r1\nACGT\n+\nIIII\n";
    for rest in ["@r2\n", "@r2\nACGT\n", "@r2\nACGT\n+\n"] {
        let input = format!("{}{}", record, rest);
        assert_eq!(clean(&input, &Config::default()), record);
        assert_eq!(clean(rest, &Config::default()), "");
    }
    assert_eq!(clean("", &Config::default()), "");
}

#[test]
fn lines_after_the_last_pair_are_dropped() {
    let paired = config(0, 0.0, 0, true);
    let pair = "@p/1\nACGT\n+\nIIII\n@p/2\nTGCA\n+\nIIII\n";
    let rest = "@q/1\nACGT\n+\nIIII\n@q/2\nTGCA\n+\n";
    let all: Vec<String> = lines_of(rest);
    for kept in 0..8 {
        let tail: String = all[..kept].iter().map(|line| format!("{}\n", line)).collect();
        assert_eq!(clean(&format!("{}{}", pair, tail), &paired), pair);
        assert_eq!(clean(&tail, &paired), "");
    }
}

#[test]
fn one_read_alone_is_no_pair() {
    let paired = config(0, 0.0, 0, true);
    assert_eq!(clean("@r1\nACGT\n+\nIIII\n", &paired), "");
}

#[test]
fn step_hands_back_text_at_the_last_line_only() {
    let outputs = feed("@r1\nACGT\n+\nIIII\n@r2\nAC\n+\nII\n", &config(3, 0.0, 0, false));
    assert_eq!(
        outputs,
        vec![None, None, None, Some("@r1\nACGT\n+\nIIII\n".to_string()), None, None, None, None]
    );
}

#[test]
fn step_hands_back_a_pair_as_one_text() {
    let input = "@p/1\nACGT\n+\nIIII\n@p/2\nTGCA\n+\nIIII\n";
    let outputs = feed(input, &config(0, 0.0, 0, true));
    assert_eq!(outputs.len(), 8);
    assert_eq!(outputs[..7], vec![None; 7]);
    assert_eq!(outputs[7], Some(input.to_string()));
}

#[test]
fn stage_follows_the_lines_of_a_read() {
    let mut assembler = Assembler::new(Config::default());
    let expected = [Stage::Identifier1, Stage::Sequence1, Stage::Separator1, Stage::Quality1];
    for round in 0..3 {
        for stage in expected {
            assert_eq!(assembler.stage(), stage, "round {}", round);
            assembler = assembler.step("IIII".to_string()).0;
        }
    }
    assert_eq!(assembler.stage(), Stage::Identifier1);
}

#[test]
fn stage_follows_the_lines_of_a_pair() {
    let mut assembler = Assembler::new(config(0, 0.0, 0, true));
    let expected = [
        Stage::Identifier1,
        Stage::Sequence1,
        Stage::Separator1,
        Stage::Quality1,
        Stage::Identifier2,
        Stage::Sequence2,
        Stage::Separator2,
        Stage::Quality2,
    ];
    for round in 0..3 {
        for stage in expected {
            assert_eq!(assembler.stage(), stage, "round {}", round);
            assembler = assembler.step("IIII".to_string()).0;
        }
    }
    assert_eq!(assembler.stage(), Stage::Identifier1);
}

#[test]
fn assembler_keeps_its_config() {
    let settings = config(7, 12.5, 3, true);
    let mut assembler = Assembler::new(settings);
    assert_eq!(assembler.config(), settings);
    for _ in 0..11 {
        assembler = assembler.step("@r".to_string()).0;
        assert_eq!(assembler.config(), settings);
    }
}

#[test]
fn nothing_of_one_record_is_left_in_the_next() {
    let input = "@a\nACGTACGT\n+\nIIIIIIII\n@b\nAC\n+\nII\n";
    assert_eq!(clean(input, &Config::default()), input);
    let paired = "@a/1\nACGTACGT\n+\nIIIIIIII\n@a/2\nACGTACGT\n+\nIIIIIIII\n@b/1\nA\n+\nI\n@b/2\nC\n+\nI\n";
    assert_eq!(clean(paired, &config(0, 0.0, 0, true)), paired);
}

#[test]
fn clean_lines_agrees_with_steps() {
    let input = "@a\nAACGT\n+\n!IIII\n@b\nAC\n+\nII\n@c\nACGT\n+\n5555\n@d\nACG\n";
    for settings in [
        Config::default(),
        config(3, 0.0, 0, false),
        config(0, 30.0, 20, false),
        config(0, 0.0, 0, true),
        config(3, 0.0, 20, true),
    ] {
        let written: String = feed(input, &settings).into_iter().flatten().collect();
        assert_eq!(clean(input, &settings), written);
    }
}
