use vstd::prelude::*;
use crate::text::{decimal_of, lemma_decimal_bounds, lines_of, parse_decimal, split_lines, split_words, words};
use vstd::string::StringSliceAdditionalSpecFns;

verus! {

/// One cell of a nonogram image.
#[derive(Debug, Clone, Copy, PartialEq, Eq, Structural)]
pub enum Field {
    Filled,
    Empty,
}

impl Field {
    /// Reads a cell from its numeric form: 0 is empty, 1 is filled.
    pub fn from_value(val: u8) -> (r: Option<Field>)
        ensures
            val == 0 ==> r == Some(Field::Empty),
            val == 1 ==> r == Some(Field::Filled),
            val > 1 ==> r.is_none(),
    {
        match val {
            0 => Some(Field::Empty),
            1 => Some(Field::Filled),
            _ => None,
        }
    }
}

impl Default for Field {
    fn default() -> (r: Self)
        ensures
            r == Field::Filled,
    {
        Field::Filled
    }
}

/// Scans a row from the left: the lengths of the runs of filled cells that
/// have ended, and the length of the run still open at the end.
pub open spec fn scan_runs(row: Seq<Field>) -> (Seq<int>, int)
    decreases row.len(),
{
    if row.len() == 0 {
        (seq![], 0)
    } else {
        let (done, open) = scan_runs(row.drop_last());
        match row.last() {
            Field::Filled => (done, open + 1),
            Field::Empty => if open > 0 {
                (done.push(open), 0)
            } else {
                (done, 0)
            },
        }
    }
}

/// The lengths of the maximal runs of filled cells of a row, from the left.
pub open spec fn blocks_of(row: Seq<Field>) -> Seq<int> {
    let (done, open) = scan_runs(row);
    if open > 0 {
        done.push(open)
    } else {
        done
    }
}

proof fn lemma_scan_open_nonneg(row: Seq<Field>)
    ensures
        scan_runs(row).1 >= 0,
        scan_runs(row).1 <= row.len(),
        forall|k: int| 0 <= k < scan_runs(row).0.len() ==> 0 < #[trigger] scan_runs(row).0[k] <= row.len(),
        scan_runs(row).0.len() <= row.len(),
    decreases row.len(),
{
    if row.len() > 0 {
        lemma_scan_open_nonneg(row.drop_last());
    }
}

/// The expected block sizes of one row or column, from the left.
pub struct BlockSpec(pub Vec<u8>);

impl BlockSpec {
    pub open spec fn sizes(&self) -> Seq<int> {
        self.0@.map_values(|b: u8| b as int)
    }

    /// Checks if a block of the given size is the one expected at `index`.
    pub fn is_block_size_valid(&self, block_size: usize, index: usize) -> (r: bool)
        ensures
            r == (index < self.0.len() && self.0@[index as int] as int == block_size as int),
    {
        if index < self.0.len() {
            self.0[index] as usize == block_size
        } else {
            false
        }
    }

    /// Checks node consistency: the runs of filled cells of `row` have exactly
    /// the expected sizes, in order.
    pub fn is_node_consistent(&self, row: &[Field]) -> (r: bool)
        ensures
            r == (blocks_of(row@) == self.sizes()),
    {
        let mut done: Vec<usize> = Vec::new();
        let mut open: usize = 0;
        let mut i: usize = 0;
        while i < row.len()
            invariant
                i <= row.len(),
                done@.map_values(|b: usize| b as int) == scan_runs(row@.take(i as int)).0,
                open as int == scan_runs(row@.take(i as int)).1,
                open <= i,
            decreases row.len() - i,
        {
            proof {
                assert(row@.take(i as int + 1).drop_last() =~= row@.take(i as int));
                lemma_scan_open_nonneg(row@.take(i as int));
            }
            match row[i] {
                Field::Filled => {
                    open = open + 1;
                },
                Field::Empty => {
                    if open > 0 {
                        proof {
                            assert(done@.push(open).map_values(|b: usize| b as int)
                                =~= done@.map_values(|b: usize| b as int).push(open as int));
                        }
                        done.push(open);
                        open = 0;
                    }
                },
            }
            i = i + 1;
        }
        proof {
            assert(row@.take(row.len() as int) =~= row@);
        }
        if open > 0 {
            proof {
                assert(done@.push(open).map_values(|b: usize| b as int) =~= done@.map_values(
                    |b: usize| b as int,
                ).push(open as int));
            }
            done.push(open);
        }
        if done.len() != self.0.len() {
            assert(blocks_of(row@).len() != self.sizes().len());
            return false;
        }
        let mut k: usize = 0;
        while k < done.len()
            invariant
                k <= done.len(),
                done.len() == self.0.len(),
                done@.map_values(|b: usize| b as int) == blocks_of(row@),
                forall|m: int| 0 <= m < k ==> blocks_of(row@)[m] == self.sizes()[m],
            decreases done.len() - k,
        {
            if !self.is_block_size_valid(done[k], k) {
                assert(blocks_of(row@)[k as int] != self.sizes()[k as int]);
                return false;
            }
            k = k + 1;
        }
        assert(blocks_of(row@) =~= self.sizes());
        true
    }
}

/// The block specifications of all rows, or of all columns.
pub struct RowSpec(pub Vec<BlockSpec>);

/// How many block specification lines to read, and the lines on offer.
pub struct RowSpecConfig {
    pub block_count: usize,
    pub lines: Vec<Vec<u8>>,
}

impl RowSpecConfig {
    pub fn new(block_count: usize, lines: Vec<Vec<u8>>) -> (r: Self)
        ensures
            r.block_count == block_count,
            r.lines@ == lines@,
    {
        Self { block_count, lines }
    }
}

/// A walk over the rows of an image.
pub struct Iter<'a> {
    index: usize,
    image_ref: &'a Vec<Vec<Field>>,
}

impl<'a> Iter<'a> {
    pub closed spec fn index(&self) -> int {
        self.index as int
    }

    pub closed spec fn image(&self) -> Seq<Vec<Field>> {
        self.image_ref@
    }

    pub fn new(image: &'a Vec<Vec<Field>>) -> (r: Self)
        ensures
            r.index() == 0,
            r.image() == image@,
    {
        Self { index: 0, image_ref: image }
    }

    /// The next row, or `None` once all rows were handed out.
    pub fn next(&mut self) -> (r: Option<&'a [Field]>)
        ensures
            final(self).image() == old(self).image(),
            old(self).index() < old(self).image().len() ==> r.is_some() && r.unwrap()@ == old(
                self,
            ).image()[old(self).index()]@ && final(self).index() == old(self).index() + 1,
            old(self).index() >= old(self).image().len() ==> r.is_none() && final(self).index()
                == old(self).index(),
    {
        if self.index < self.image_ref.len() {
            let ret = self.image_ref[self.index].as_slice();
            self.index = self.index + 1;
            Some(ret)
        } else {
            None
        }
    }
}

/// Copies an image row by row.
fn copy_image(image: &Vec<Vec<Field>>) -> (r: Vec<Vec<Field>>)
    ensures
        r@.len() == image@.len(),
        forall|k: int| 0 <= k < r@.len() ==> #[trigger] r@[k]@ == image@[k]@,
{
    let mut r: Vec<Vec<Field>> = Vec::new();
    let mut y: usize = 0;
    while y < image.len()
        invariant
            y <= image.len(),
            r@.len() == y,
            forall|k: int| 0 <= k < y ==> #[trigger] r@[k]@ == image@[k]@,
        decreases image.len() - y,
    {
        let src = &image[y];
        let mut row: Vec<Field> = Vec::new();
        let mut x: usize = 0;
        while x < src.len()
            invariant
                x <= src.len(),
                row@ == src@.take(x as int),
            decreases src.len() - x,
        {
            row.push(src[x]);
            x = x + 1;
            assert(row@ =~= src@.take(x as int));
        }
        assert(row@ =~= src@);
        r.push(row);
        y = y + 1;
    }
    r
}

/// A nonogram: its image and the block specifications of its rows and
/// columns.
pub struct Nonogram {
    image: Vec<Vec<Field>>,
    image_transposed: Vec<Vec<Field>>,
    row_block_spec: RowSpec,
    col_block_spec: RowSpec,
}

impl Nonogram {
    pub closed spec fn image(&self) -> Seq<Seq<Field>> {
        self.image@.map_values(|row: Vec<Field>| row@)
    }

    /// The image that `cols` walks over; it starts as a copy of the image.
    pub closed spec fn second_image(&self) -> Seq<Seq<Field>> {
        self.image_transposed@.map_values(|row: Vec<Field>| row@)
    }

    pub fn new(image: Vec<Vec<Field>>, row_block_spec: RowSpec, col_block_spec: RowSpec) -> (r:
        Self)
        ensures
            r.image() == image@.map_values(|row: Vec<Field>| row@),
            r.second_image() == image@.map_values(|row: Vec<Field>| row@),
            r.row_specs() == row_block_spec.specs(),
            r.col_specs() == col_block_spec.specs(),
    {
        let image_transposed = copy_image(&image);
        assert(image_transposed@.map_values(|row: Vec<Field>| row@) =~= image@.map_values(
            |row: Vec<Field>| row@,
        ));
        Self { image, image_transposed, row_block_spec, col_block_spec }
    }

    /// Walks over the rows of the image.
    pub fn rows(&self) -> (r: Iter<'_>)
        ensures
            r.index() == 0,
            r.image().map_values(|row: Vec<Field>| row@) == self.image(),
    {
        Iter::new(&self.image)
    }

    /// Walks over the rows of the second image.
    pub fn cols(&self) -> (r: Iter<'_>)
        ensures
            r.index() == 0,
            r.image().map_values(|row: Vec<Field>| row@) == self.second_image(),
    {
        Iter::new(&self.image_transposed)
    }
}

/// The block sizes that a line of whitespace-separated numbers names; none if
/// a word is not a number from 0 to 255.
pub open spec fn line_blocks(line: Seq<u8>) -> Option<Seq<int>> {
    let w = words(line);
    if forall|k: int| 0 <= k < w.len() ==> (#[trigger] decimal_of(w[k], 255)).is_some() {
        Some(Seq::new(w.len(), |k: int| decimal_of(w[k], 255).unwrap()))
    } else {
        None
    }
}

impl BlockSpec {
    /// Reads a block specification from a line of numbers.
    pub fn from_line(line: &[u8]) -> (r: Option<BlockSpec>)
        ensures
            match line_blocks(line@) {
                Some(v) => r.is_some() && r.unwrap().sizes() == v,
                None => r.is_none(),
            },
    {
        let w = split_words(line);
        let mut sizes: Vec<u8> = Vec::new();
        let mut k: usize = 0;
        while k < w.len()
            invariant
                k <= w.len(),
                w@.len() == words(line@).len(),
                forall|m: int| 0 <= m < w@.len() ==> #[trigger] w@[m]@ == words(line@)[m],
                sizes.len() == k,
                forall|m: int|
                    0 <= m < k ==> (#[trigger] decimal_of(words(line@)[m], 255)).is_some()
                        && sizes@[m] as int == decimal_of(words(line@)[m], 255).unwrap(),
            decreases w.len() - k,
        {
            assert(w@[k as int]@ == words(line@)[k as int]);
            let word = w[k].as_slice();
            assert(word@ == words(line@)[k as int]);
            match parse_decimal(word, 255) {
                Some(v) => {
                    proof {
                        lemma_decimal_bounds(word@, 255);
                    }
                    let ghost before = sizes@;
                    sizes.push(v as u8);
                    assert forall|m: int| 0 <= m < k + 1 implies (#[trigger] decimal_of(
                        words(line@)[m],
                        255,
                    )).is_some() && sizes@[m] as int == decimal_of(words(line@)[m], 255).unwrap() by {
                        if m < k {
                            assert(sizes@[m] == before[m]);
                        }
                    }
                },
                None => {
                    return None;
                },
            }
            k = k + 1;
        }
        let r = BlockSpec(sizes);
        assert(r.sizes() =~= line_blocks(line@).unwrap());
        Some(r)
    }
}

impl RowSpec {
    pub open spec fn specs(&self) -> Seq<Seq<int>> {
        self.0@.map_values(|b: BlockSpec| b.sizes())
    }

    /// Every line of the configuration reads as a block specification, and
    /// there are at most `block_count` of them.
    pub open spec fn config_ok(config: RowSpecConfig) -> bool {
        &&& forall|k: int|
            0 <= k < config.lines.len() ==> (#[trigger] line_blocks(config.lines@[k]@)).is_some()
        &&& config.lines.len() <= config.block_count
    }

    /// Reads one block specification from each line of the configuration.
    pub fn from_config(spec_config: RowSpecConfig) -> (r: Option<RowSpec>)
        ensures
            r.is_some() == RowSpec::config_ok(spec_config),
            r.is_some() ==> r.unwrap().specs() == Seq::new(
                spec_config.lines.len() as nat,
                |k: int| line_blocks(spec_config.lines@[k]@).unwrap(),
            ),
    {
        let mut row_spec: Vec<BlockSpec> = Vec::new();
        let mut k: usize = 0;
        while k < spec_config.lines.len()
            invariant
                k <= spec_config.lines.len(),
                row_spec.len() == k,
                forall|m: int|
                    0 <= m < k ==> (#[trigger] line_blocks(spec_config.lines@[m]@)).is_some()
                        && row_spec@[m].sizes() == line_blocks(spec_config.lines@[m]@).unwrap(),
            decreases spec_config.lines.len() - k,
        {
            match BlockSpec::from_line(spec_config.lines[k].as_slice()) {
                Some(b) => {
                    row_spec.push(b);
                },
                None => {
                    return None;
                },
            }
            k = k + 1;
        }
        if row_spec.len() > spec_config.block_count {
            return None;
        }
        let r = RowSpec(row_spec);
        assert(r.specs() =~= Seq::new(
            spec_config.lines.len() as nat,
            |k: int| line_blocks(spec_config.lines@[k]@).unwrap(),
        ));
        Some(r)
    }
}

/// The width and height that a configuration line gives: its first two words,
/// as numbers.
pub open spec fn config_of(line: Seq<u8>) -> Option<(int, int)> {
    let w = words(line);
    if w.len() >= 2 && decimal_of(w[0], usize::MAX as int).is_some() && decimal_of(
        w[1],
        usize::MAX as int,
    ).is_some() {
        Some((decimal_of(w[0], usize::MAX as int).unwrap(), decimal_of(w[1], usize::MAX as int).unwrap()))
    } else {
        None
    }
}

/// An image of `height` rows of `width` cells, all `Field::default()`.
pub open spec fn blank_image(width: int, height: int) -> Seq<Seq<Field>> {
    Seq::new(height as nat, |y: int| Seq::new(width as nat, |x: int| Field::Filled))
}

fn make_blank_image(width: usize, height: usize) -> (r: Vec<Vec<Field>>)
    ensures
        r@.map_values(|row: Vec<Field>| row@) == blank_image(width as int, height as int),
{
    let mut image: Vec<Vec<Field>> = Vec::new();
    let mut y: usize = 0;
    while y < height
        invariant
            y <= height,
            image@.len() == y,
            forall|k: int| 0 <= k < y ==> #[trigger] image@[k]@ == Seq::new(width as nat, |x: int| Field::Filled),
        decreases height - y,
    {
        let mut row: Vec<Field> = Vec::new();
        let mut x: usize = 0;
        while x < width
            invariant
                x <= width,
                row@ == Seq::new(x as nat, |i: int| Field::Filled),
            decreases width - x,
        {
            row.push(Field::default());
            x = x + 1;
            assert(row@ =~= Seq::new(x as nat, |i: int| Field::Filled));
        }
        image.push(row);
        y = y + 1;
    }
    assert(image@.map_values(|row: Vec<Field>| row@) =~= blank_image(width as int, height as int));
    image
}

impl Nonogram {
    pub closed spec fn row_specs(&self) -> Seq<Seq<int>> {
        self.row_block_spec.specs()
    }

    pub closed spec fn col_specs(&self) -> Seq<Seq<int>> {
        self.col_block_spec.specs()
    }

    /// Reads the width and the height from the configuration line.
    pub fn parse_config_line(config_line: &[u8]) -> (r: Option<(usize, usize)>)
        ensures
            match config_of(config_line@) {
                Some((w, h)) => r == Some((w as usize, h as usize)),
                None => r.is_none(),
            },
    {
        proof {
            lemma_decimal_bounds(words(config_line@)[0], usize::MAX as int);
            lemma_decimal_bounds(words(config_line@)[1], usize::MAX as int);
        }
        let w = split_words(config_line);
        if w.len() < 2 {
            return None;
        }
        assert(w@[0]@ == words(config_line@)[0]);
        assert(w@[1]@ == words(config_line@)[1]);
        let width = match parse_decimal(w[0].as_slice(), usize::MAX) {
            Some(v) => v,
            None => {
                return None;
            },
        };
        let height = match parse_decimal(w[1].as_slice(), usize::MAX) {
            Some(v) => v,
            None => {
                return None;
            },
        };
        Some((width, height))
    }

    /// Reads a nonogram: a line with its width and height, then the block
    /// specification lines. All of those lines go to the rows, and there may
    /// be at most `width` of them; the columns get none. The image starts
    /// with every cell at its default.
    pub fn from_text(text: &str) -> (r: Option<Nonogram>)
        ensures
            ({
                let lines = lines_of(text.spec_bytes());
                let rest = lines.drop_first();
                r.is_some() == (lines.len() > 0 && config_of(lines[0]).is_some() && (forall|k: int|
                    0 <= k < rest.len() ==> (#[trigger] line_blocks(rest[k])).is_some())
                    && rest.len() <= config_of(lines[0]).unwrap().0)
            }),
            r.is_some() ==> ({
                let lines = lines_of(text.spec_bytes());
                let (w, h) = config_of(lines[0]).unwrap();
                &&& r.unwrap().image() == blank_image(w, h)
                &&& r.unwrap().row_specs() == Seq::new(
                    (lines.len() - 1) as nat,
                    |k: int| line_blocks(lines[k + 1]).unwrap(),
                )
                &&& r.unwrap().col_specs() == Seq::<Seq<int>>::empty()
            }),
    {
        let mut lines = split_lines(text.as_bytes());
        let ghost all = lines_of(text.spec_bytes());
        if lines.len() == 0 {
            return None;
        }
        let config_line = lines.remove(0);
        assert(config_line@ == all[0]);
        proof {
            lemma_decimal_bounds(words(all[0])[0], usize::MAX as int);
            lemma_decimal_bounds(words(all[0])[1], usize::MAX as int);
        }
        let (width, height) = match Nonogram::parse_config_line(config_line.as_slice()) {
            Some(c) => c,
            None => {
                return None;
            },
        };
        assert(config_of(all[0]) == Some((width as int, height as int)));
        let ghost rest = all.drop_first();
        assert forall|k: int| 0 <= k < lines.len() implies #[trigger] lines@[k]@ == rest[k] by {
            assert(lines@[k]@ == all[k + 1]);
        }
        assert(lines.len() == rest.len());
        let row_config = RowSpecConfig::new(width, lines);
        assert(forall|k: int| 0 <= k < row_config.lines.len() ==> #[trigger] row_config.lines@[k]@ == rest[k]);
        proof {
            if forall|k: int| 0 <= k < rest.len() ==> (#[trigger] line_blocks(rest[k])).is_some() {
                assert forall|k: int| 0 <= k < row_config.lines.len() implies (#[trigger] line_blocks(row_config.lines@[k]@)).is_some() by {
                    assert(line_blocks(rest[k]).is_some());
                }
            }
            if forall|k: int| 0 <= k < row_config.lines.len() ==> (#[trigger] line_blocks(row_config.lines@[k]@)).is_some() {
                assert forall|k: int| 0 <= k < rest.len() implies (#[trigger] line_blocks(rest[k])).is_some() by {
                    assert(line_blocks(row_config.lines@[k]@).is_some());
                }
            }
        }
        let row_block_spec = match RowSpec::from_config(row_config) {
            Some(spec) => spec,
            None => {
                return None;
            },
        };
        let col_block_spec = match RowSpec::from_config(RowSpecConfig::new(height, Vec::new())) {
            Some(spec) => spec,
            None => {
                return None;
            },
        };
        let image = make_blank_image(width, height);
        let r = Nonogram::new(image, row_block_spec, col_block_spec);
        assert forall|k: int| 0 <= k < rest.len() implies #[trigger] r.row_specs()[k] == line_blocks(all[k + 1]).unwrap() by {
            assert(row_config.lines@[k]@ == rest[k]);
        }
        assert(r.row_specs() =~= Seq::new(
            (all.len() - 1) as nat,
            |k: int| line_blocks(all[k + 1]).unwrap(),
        ));
        assert(r.col_specs() =~= Seq::<Seq<int>>::empty());
        Some(r)
    }
}

} // verus!
