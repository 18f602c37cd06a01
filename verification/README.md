# fdk_aac

The integer side of an AAC codec, verified with Verus, and the floating-point
code around it.

- `src/` is the library. Each function states what it returns or changes, and
  Verus proves it. Public proof functions state what holds across functions: that
  what is written is read back, that sums do not overflow, that a refused frame
  leaves a parser as it was.
- `tests/` runs the library on concrete values.
- `app/` holds windows, transforms, subband banks and compression in floating
  point. It takes its decisions from the library.

| module | what it holds |
| --- | --- |
| `bits`, `text` | bit streams, checksums and the texts of errors |
| `huffman`, `huffman_tables`, `codebook_laws`, `spectral` | codebooks and spectral tuples |
| `ics`, `section`, `scalefactor`, `sfb` | the layout of a frame |
| `hcr` | reordering of codewords against bit errors |
| `asc`, `latm` | audio configurations and the transport multiplex |
| `fixed`, `fixed_fft` | fixed-point arithmetic and transforms |
| `inverse`, `filterbank`, `ld_filterbank` | from coefficients to samples |
| `ld_sbr`, `ld_sbr_qmf`, `usac_sbr` | spectral band replication |
| `encoder_metadata` | loudness and downmix metadata |
| `rom` | number tables in source text |

The coefficient tables that the filterbanks need are read at run time from the
texts `aac_rom.cpp`, `FDK_tools_rom.cpp` and `sbr_rom.cpp`.
