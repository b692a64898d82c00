# Video splitter

A desktop program that splits long videos into chunks of a fixed length, changes
containers, and crops to a narrow format, with a window that can follow the main
subject. Cutting is done by `ffmpeg`; without a crop nothing is encoded anew.

The library (`src/`) plans and decides; Verus proves that it does what its
contracts say. The program around it (`app/`) runs the window and the processes
and does the floating-point arithmetic.

| module       | what it decides                                                        |
|--------------|------------------------------------------------------------------------|
| `listing`    | which files a job works on, where its output goes                      |
| `naming`     | output file names and extensions                                       |
| `probe`      | the size of the picture, from the report of `ffprobe`                  |
| `crop`       | the crop window, the rows trimmed off the top                          |
| `tracking`   | the main subject among the detections of a frame                       |
| `frames`     | the frames of a raw video stream                                       |
| `trajectory` | the path of the subject: gaps, jumps, smoothing                        |
| `segments`   | crop segments of a chunk, at most 220 of them                          |
| `ffmpeg`     | arguments and filter graphs                                            |
| `process`    | what the run of one process came to                                    |
| `job`        | pausing, stopping, progress reports                                    |
| `text`       | comparison and decimal numbers                                         |

Floating-point numbers enter the library only as bit patterns or as integers that
stand for them; the formulas are handed in as functions.
