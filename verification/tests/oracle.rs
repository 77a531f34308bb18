//! The character maps are compared with those of a quadratic search over
//! the full edit grid, which is simple enough to be trusted by inspection.

use tokenizations::get_charmap;

type Point = (usize, usize);

/// Walks the grid of edit distances back from the far corner to the origin.
struct GridPath {
    d: Vec<Vec<usize>>,
    cur: Point,
    exhausted: bool,
}

impl Iterator for GridPath {
    type Item = Point;

    fn next(&mut self) -> Option<Point> {
        if self.exhausted {
            return None;
        }
        if self.cur == (0, 0) {
            self.exhausted = true;
            return Some((0, 0));
        }
        let (i, j) = self.cur;
        let ncur = if i > 0 && j > 0 {
            let ncur = *[(i, j - 1), (i - 1, j)]
                .iter()
                .min_by_key(|x| self.d[x.0][x.1])
                .unwrap();
            let ul = self.d[i - 1][j - 1];
            if self.d[ncur.0][ncur.1] > ul && self.d[i][j] == ul {
                (i - 1, j - 1)
            } else {
                ncur
            }
        } else if i > 0 {
            (i - 1, j)
        } else {
            (i, j - 1)
        };
        self.cur = ncur;
        Some((i, j))
    }
}

fn grid_path(a: &str, b: &str) -> GridPath {
    let n = a.chars().count();
    let m = b.chars().count();
    let mut d = vec![vec![usize::MAX; m + 1]; n + 1];
    d[0] = (0..=m).collect();
    for (i, e) in d.iter_mut().enumerate().take(n + 1) {
        e[0] = i;
    }
    for (i, ca) in a.chars().enumerate() {
        for (j, cb) in b.chars().enumerate() {
            if ca == cb {
                d[i + 1][j + 1] = d[i][j];
            } else {
                let mut u = (i + 1, j);
                let l = (i, j + 1);
                if d[u.0][u.1] > d[l.0][l.1] {
                    u = l;
                }
                d[i + 1][j + 1] = d[u.0][u.1] + 1;
            }
        }
    }
    GridPath {
        d,
        cur: (n, m),
        exhausted: false,
    }
}

fn path_to_charmap(
    mut path: impl Iterator<Item = Point>,
) -> (Vec<Option<usize>>, Vec<Option<usize>>) {
    let (mut i, mut j) = path.next().unwrap();
    let mut a2b = vec![None; i];
    let mut b2a = vec![None; j];
    for (pi, pj) in path {
        if (i - pi) + (j - pj) == 2 {
            a2b[pi] = Some(pj);
            b2a[pj] = Some(pi);
        }
        i = pi;
        j = pj;
    }
    (a2b, b2a)
}

/// All texts over `alphabet` of at most `max_len` characters.
fn all_texts(alphabet: &[char], max_len: usize) -> Vec<String> {
    let mut all = vec![String::new()];
    let mut last = vec![String::new()];
    for _ in 0..max_len {
        let mut next = Vec::new();
        for text in &last {
            for &c in alphabet {
                let mut longer = text.clone();
                longer.push(c);
                next.push(longer);
            }
        }
        all.extend(next.iter().cloned());
        last = next;
    }
    all
}

fn assert_same_as_grid(a: &str, b: &str) {
    let expected = path_to_charmap(grid_path(a, b));
    assert_eq!(get_charmap(a, b), expected, "{:?} {:?}", a, b);
}

#[test]
fn grid_search_on_chosen_texts() {
    // These texts are their own normal form, one character for each.
    let cases = [
        ("", ""),
        ("", "a"),
        ("a", ""),
        ("abc", "abc"),
        ("abc", "xyz"),
        ("kitten", "sitting"),
        ("hello``world``", "hello \"world\""),
        ("a lagorge", "a     lagorge"),
        ("abcabba", "cbabac"),
        ("aaaa", "aa"),
        ("ab", "ba"),
    ];
    for (a, b) in cases {
        assert_same_as_grid(a, b);
    }
}

#[test]
fn grid_search_on_all_short_texts_of_two_letters() {
    let texts = all_texts(&['a', 'b'], 5);
    assert_eq!(texts.len(), 63);
    for a in &texts {
        for b in &texts {
            assert_same_as_grid(a, b);
        }
    }
}

#[test]
fn grid_search_on_all_short_texts_of_three_letters() {
    let texts = all_texts(&['a', 'b', 'c'], 3);
    assert_eq!(texts.len(), 40);
    for a in &texts {
        for b in &texts {
            assert_same_as_grid(a, b);
        }
    }
}

#[test]
fn grid_path_runs_from_corner_to_origin() {
    let path: Vec<Point> = grid_path("ab", "b").collect();
    assert_eq!(path, vec![(2, 1), (1, 0), (0, 0)]);
    assert_eq!(
        path_to_charmap(path.into_iter()),
        (vec![None, Some(0)], vec![Some(1)])
    );
}

/// A text over four letters, drawn from an arbitrary one: with so few
/// letters the search meets many ties.
fn few_letters(text: &str) -> String {
    text.chars()
        .map(|c| ['a', 'b', 'c', 'd'][(u32::from(c) % 4) as usize])
        .collect()
}

fn same_as_grid(a: String, b: String) -> bool {
    let a = few_letters(&a);
    let b = few_letters(&b);
    get_charmap(&a, &b) == path_to_charmap(grid_path(&a, &b))
}

#[test]
fn randomcheck_myers_with_dp() {
    quickcheck::QuickCheck::new()
        .rng(quickcheck::Gen::from_size_and_seed(40, 7))
        .tests(300)
        .quickcheck(same_as_grid as fn(String, String) -> bool);
}
