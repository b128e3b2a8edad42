use intcode::layers::{get_image, get_layers};

#[test]
fn solve_1_test() {
    let input = vec![1, 2, 3, 4, 5, 6, 7, 8, 9, 0, 1, 2];
    let width = 3;
    let height = 2;
    let layers = get_layers(&input, width, height);

    assert_eq!(layers[0].data, vec![1, 2, 3, 4, 5, 6]);
    assert_eq!(layers[1].data, vec![7, 8, 9, 0, 1, 2]);
}

#[test]
fn solve_2_test() {
    let input = vec![0, 2, 2, 2, 1, 1, 2, 2, 2, 2, 1, 2, 0, 0, 0, 0];
    let width = 2;
    let height = 2;

    let layers = get_layers(&input, width, height);
    let image = get_image(layers, width);

    assert_eq!(image, "  0\n0  ");
}

#[test]
fn count_layer_digits() {
    let input = vec![0, 0, 1, 2, 2, 2];
    let layers = get_layers(&input, 3, 2);
    assert_eq!(layers.len(), 1);
    assert_eq!(layers[0].count_occurrences_of(0), 2);
    assert_eq!(layers[0].count_occurrences_of(1), 1);
    assert_eq!(layers[0].count_occurrences_of(2), 3);
    assert_eq!(layers[0].count_occurrences_of(7), 0);
}
