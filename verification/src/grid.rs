use vstd::prelude::*;

verus! {

/// The requests the counter grid model accepts.
#[derive(Debug, Clone, Copy)]
pub enum GridMessage {
    Increment,
    Decrement,
}

/// A small grid-of-values model with a counter, updated by messages.
#[derive(Debug)]
pub struct Grid {
    pub grid_values: Vec<Vec<i32>>,
    pub counter_value: i32,
}

impl Grid {
    /// Applies one message: `Increment` raises the counter by one and
    /// `Decrement` lowers it by one; the grid values are untouched.
    pub fn update(&mut self, message: GridMessage)
        requires
            message is Increment ==> old(self).counter_value < i32::MAX,
            message is Decrement ==> old(self).counter_value > i32::MIN,
        ensures
            final(self).grid_values@ == old(self).grid_values@,
            match message {
                GridMessage::Increment => final(self).counter_value == old(self).counter_value
                    + 1,
                GridMessage::Decrement => final(self).counter_value == old(self).counter_value
                    - 1,
            },
    {
        match message {
            GridMessage::Increment => {
                self.counter_value = self.counter_value + 1;
            },
            GridMessage::Decrement => {
                self.counter_value = self.counter_value - 1;
            },
        }
    }
}

impl Default for Grid {
    /// A 3 x 3 grid of zeroes with the counter at zero.
    fn default() -> (g: Grid)
        ensures
            g.counter_value == 0,
            g.grid_values@.len() == 3,
            forall|r: int|
                0 <= r < 3 ==> (#[trigger] g.grid_values@[r])@.len() == 3 && forall|c: int|
                    0 <= c < 3 ==> g.grid_values@[r]@[c] == 0,
    {
        let mut rows: Vec<Vec<i32>> = Vec::new();
        for r in 0..3usize
            invariant
                rows@.len() == r,
                forall|i: int|
                    0 <= i < r ==> (#[trigger] rows@[i])@.len() == 3 && forall|c: int|
                        0 <= c < 3 ==> rows@[i]@[c] == 0,
        {
            let mut row: Vec<i32> = Vec::new();
            for c in 0..3usize
                invariant
                    row@.len() == c,
                    forall|i: int| 0 <= i < c ==> row@[i] == 0,
            {
                row.push(0);
            }
            rows.push(row);
        }
        Grid { grid_values: rows, counter_value: 0 }
    }
}

} // verus!
