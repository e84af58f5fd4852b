use pbs::channel::{detect_channel, lowercase_channel, Channel};
use pbs::links::{get_desired_links, is_port_linked, LinkInfo, PortInfo};

fn port(id: u32, node_id: u32, name: &str, direction: &str) -> PortInfo {
    PortInfo { id, node_id, name: name.to_string(), direction: direction.to_string() }
}

#[test]
fn channel_from_tokens() {
    assert_eq!(detect_channel("capture_FL"), Channel::Left);
    assert_eq!(detect_channel("playback_FR"), Channel::Right);
    assert_eq!(detect_channel("input_1"), Channel::Left);
    assert_eq!(detect_channel("input_2"), Channel::Right);
    assert_eq!(detect_channel("Front Left"), Channel::Left);
    assert_eq!(detect_channel("RIGHT"), Channel::Right);
    assert_eq!(detect_channel("monitor.r"), Channel::Right);
    assert_eq!(detect_channel("out_l"), Channel::Left);
}

#[test]
fn first_naming_token_decides() {
    // "fr" comes before "l" among the tokens.
    assert_eq!(detect_channel("fr-l"), Channel::Right);
    assert_eq!(detect_channel("l-fr"), Channel::Left);
}

#[test]
fn channel_from_substrings_and_mono() {
    // No token names a channel; the substring "fl" does.
    assert_eq!(detect_channel("output_FLAC"), Channel::Left);
    assert_eq!(detect_channel("surround.FRONTX"), Channel::Right);
    assert_eq!(detect_channel("capture_MONO"), Channel::Mono);
    assert_eq!(detect_channel("AUX0"), Channel::Mono);
    assert_eq!(detect_channel(""), Channel::Mono);
    assert_eq!(detect_channel("3"), Channel::Mono);
}

#[test]
fn stereo_links_keep_channels() {
    let out_l = port(1, 100, "output_FL", "out");
    let out_r = port(2, 100, "output_FR", "out");
    let out_m = port(3, 100, "output_MONO", "out");
    let in_l = port(10, 200, "input_FL", "in");
    let in_r = port(11, 200, "input_FR", "in");
    let links = get_desired_links(&[&out_l, &out_r, &out_m], &[&in_l, &in_r]);
    assert_eq!(links, vec![(1, 10), (2, 11)]);
}

#[test]
fn stereo_to_mono_input_links_everything() {
    let out_l = port(1, 100, "output_FL", "out");
    let out_r = port(2, 100, "output_FR", "out");
    let in_m = port(20, 200, "input_MONO", "in");
    let links = get_desired_links(&[&out_l, &out_r], &[&in_m]);
    assert_eq!(links, vec![(1, 20), (2, 20)]);
}

#[test]
fn mono_output_to_stereo_input_links_everything() {
    let out_m = port(5, 100, "capture_MONO", "out");
    let in_l = port(10, 200, "input_FL", "in");
    let in_r = port(11, 200, "input_FR", "in");
    let links = get_desired_links(&[&out_m], &[&in_l, &in_r]);
    assert_eq!(links, vec![(5, 10), (5, 11)]);
}

#[test]
fn several_left_ports_are_all_paired() {
    let o1 = port(1, 100, "a_FL", "out");
    let o2 = port(2, 100, "b_FL", "out");
    let i1 = port(10, 200, "x_FL", "in");
    let i2 = port(11, 200, "y_FL", "in");
    let links = get_desired_links(&[&o1, &o2], &[&i1, &i2]);
    assert_eq!(links, vec![(1, 10), (1, 11), (2, 10), (2, 11)]);
}

#[test]
fn no_ports_no_links() {
    let i1 = port(10, 200, "x_FL", "in");
    assert_eq!(get_desired_links(&[], &[&i1]), Vec::<(u32, u32)>::new());
    assert_eq!(get_desired_links(&[], &[]), Vec::<(u32, u32)>::new());
}

#[test]
fn port_linked_checks_both_ends() {
    let links = vec![LinkInfo { out_port: 1, in_port: 10 }, LinkInfo { out_port: 2, in_port: 11 }];
    assert!(is_port_linked(&links, 1, 10));
    assert!(is_port_linked(&links, 2, 11));
    assert!(!is_port_linked(&links, 1, 11));
    assert!(!is_port_linked(&links, 10, 1));
    assert!(!is_port_linked(&[], 1, 10));
}

#[test]
fn channel_of_lowercased_characters() {
    assert_eq!(lowercase_channel(&['a', '_', 'f', 'l']), Channel::Left);
    assert_eq!(lowercase_channel(&['f', 'r', 'o', 'n', 't', '-', 'r', 'i', 'g', 'h', 't']), Channel::Right);
    assert_eq!(lowercase_channel(&['m', 'o', 'n', 'o']), Channel::Mono);
    // Upper case is not lowercased here.
    assert_eq!(lowercase_channel(&['F', 'L']), Channel::Mono);
}
