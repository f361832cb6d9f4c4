# billion_rows

Computes, for a file of weather-station measurements (one `name;value` line
each, values with one decimal), the minimum, mean and maximum of every
station, sorted by name.

The library (`src/`) holds the computation and its proofs: the word-at-a-time
scanner, the branch-free parser of measurements, the open-addressing table of
stations, the three-part scan of a slice of the input, the plan that cuts the
input into one slice per worker, and the merging of the workers' tables into
sorted totals. Its contracts state the statistics each step produces in terms of the lines
of the input, and say which slots the table holds afterwards: each names a
line that was read, has taken at least one measurement, and only a name of
exactly sixteen bytes can stand in two slots (the word-at-a-time phase keeps
it in a slot compared by bytes, the byte-by-byte phase in one compared by
word). Of the input they ask what the scan itself needs: that each slot's
count, and each running sum in the order the scan adds the measurements,
fit its record, and that the table has a slot for every name and kind of
slot that takes a measurement. The proof functions of `data_slice` state that the
three-part scan of a slice equals one pass over it, and that the slices of
the plan, together, count every line of the input once when there are at
least two workers and no byte at which a slice (but the last) ends is a line
end; where such a byte is a line end, the line right after it is not counted,
as the plan's arithmetic has it.

`app/main.rs` maps the file into memory, runs one worker thread per slice,
and prints the totals with floating-point means.
