# soft-unet

Builds soft segmentation masks from LabelMe annotations: each image is
augmented, its labelled contours are grouped (`outer_<n>` bounds group `n`,
other labels `<name>_<n>` lie inside it), each group is cropped, masks are
drawn, and the crops are split into a left and a right tensor.

- `src/` is the verified library (Verus): label parsing, contour grouping and
  crop layout, cleaning of contours that left the image, the left/right split,
  tensor placement checks, special-label fills, smoothing sample plans,
  annotation file selection and output naming. Contour coordinates are held
  as the integer facts the logic reads of them (`types::Coord`).
- `app/` is the program around it: file and directory access, JSON, OpenCV
  drawing and image I/O, random augmentation, floating-point geometry
  (affine transforms, Catmull-Rom evaluation, contour centres) and threads.
- `tests/` exercises the library on concrete inputs.
